//! What the way from a sentence to a fix promises.

use vstd::prelude::*;

use crate::gps::{
    carries_checksum, combined, digits_value, fields, fix_of, hex_value, last_star,
    number, reading_in, satellites_in, unsigned,
};
use crate::number::Real64;
use crate::text::decimal;
use crate::text_laws::{law_decimal_reads_back, reading};

verus! {

/// The fields with commas between them.
pub open spec fn joined(f: Seq<Seq<u8>>) -> Seq<u8>
    decreases f.len(),
{
    if f.len() == 0 {
        Seq::empty()
    } else if f.len() == 1 {
        f[0]
    } else {
        joined(f.drop_last()) + seq![44u8] + f.last()
    }
}

/// Whether a line is made of the fields, with commas between them and none in them.
pub open spec fn made_of(line: Seq<u8>, f: Seq<Seq<u8>>) -> bool {
    &&& f.len() > 0
    &&& joined(f) == line
    &&& forall|i: int, j: int|
        0 <= i < f.len() && 0 <= j < f[i].len() ==> #[trigger] f[i][j] != 44
}

/// A line that is made of fields is split into just these.
pub proof fn law_line_is_split_into_its_fields(line: Seq<u8>, f: Seq<Seq<u8>>)
    requires
        made_of(line, f),
    ensures
        fields(line) == f,
    decreases line.len(),
{
    let front = f.drop_last();
    let last = f.last();
    if last.len() > 0 {
        let short = last.drop_last();
        let g = front.push(short);
        assert(g.drop_last() =~= front);
        assert(line.last() == last.last()) by {
            assert(f[f.len() - 1][last.len() - 1] != 44);
        }
        assert(joined(g) =~= line.drop_last());
        assert forall|i: int, j: int|
            0 <= i < g.len() && 0 <= j < g[i].len() implies #[trigger] g[i][j] != 44 by {
            assert(f[i][j] == g[i][j]);
        }
        law_line_is_split_into_its_fields(line.drop_last(), g);
        assert(f[f.len() - 1][last.len() - 1] != 44);
        assert(front.push(short.push(last.last())) =~= f) by {
            assert(short.push(last.last()) =~= last);
        }
        assert(g.last() == short);
    } else if f.len() > 1 {
        assert(line =~= joined(front) + seq![44u8]);
        assert(line.drop_last() =~= joined(front));
        assert(line.last() == 44);
        assert forall|i: int, j: int|
            0 <= i < front.len() && 0 <= j < front[i].len() implies #[trigger] front[i][j] != 44 by {
            assert(f[i][j] == front[i][j]);
        }
        law_line_is_split_into_its_fields(line.drop_last(), front);
        assert(last =~= Seq::empty());
        assert(front.push(Seq::empty()) =~= f);
    } else {
        assert(f[0] =~= Seq::empty());
        assert(f =~= seq![Seq::empty()]);
    }
}

/// Whether the fields are those of a fix that can be used: the kind ends in `GGA`, no field
/// is missing, the quality is not `0`, enough satellites were in view, and both coordinates
/// have degrees and minutes.
pub open spec fn usable(f: Seq<Seq<u8>>, min_satellites: u32) -> bool {
    &&& f.len() >= 10
    &&& f[0].len() >= 3
    &&& f[0][f[0].len() - 3] == 71
    &&& f[0][f[0].len() - 2] == 71
    &&& f[0][f[0].len() - 1] == 65
    &&& !(f[6].len() == 1 && f[6][0] == 48)
    &&& satellites_in(f[7]) >= min_satellites
    &&& f[2].len() >= 3
    &&& f[4].len() >= 4
}

/// A sentence gives a fix exactly if it starts with a dollar sign, carries its checksum, its
/// fields are those of a usable fix, and both coordinates are numbers. Latitude: the first
/// two characters of its field are degrees, the rest minutes, and it counts negative exactly
/// if the field after it is `S`. Longitude: three characters, and `W`. Neither sign touches
/// the other coordinate.
pub proof fn law_fix_is_what_the_sentence_says(
    line: Seq<u8>,
    f: Seq<Seq<u8>>,
    min_satellites: u32,
    lat: Option<Real64>,
    lon: Option<Real64>,
    altitude: Option<Real64>,
)
    requires
        made_of(line, f),
    ensures
        reading_in(line, min_satellites) is Some <==> line.len() > 0 && line[0] == 36
            && carries_checksum(line) && usable(f, min_satellites),
        reading_in(line, min_satellites) matches Some(r) ==> {
            &&& r.lat_degrees == f[2].subrange(0, 2)
            &&& r.lat_minutes == f[2].subrange(2, f[2].len() as int)
            &&& r.lon_degrees == f[4].subrange(0, 3)
            &&& r.lon_minutes == f[4].subrange(3, f[4].len() as int)
            &&& r.altitude == f[9]
            &&& r.satellites == satellites_in(f[7])
            &&& fix_of(r, lat, lon, altitude) is Some <==> lat is Some && lon is Some
            &&& fix_of(r, lat, lon, altitude) matches Some(fix) ==> {
                &&& f[3] == seq![83u8] ==> fix.lat == lat.unwrap().opposite()
                &&& f[3] != seq![83u8] ==> fix.lat == lat.unwrap()
                &&& f[5] == seq![87u8] ==> fix.lon == lon.unwrap().opposite()
                &&& f[5] != seq![87u8] ==> fix.lon == lon.unwrap()
                &&& fix.altitude_m == altitude
                &&& fix.satellites == Some(satellites_in(f[7]))
            }
        },
{
    law_line_is_split_into_its_fields(line, f);
    if f[0].len() >= 3 {
        let tail = f[0].skip(f[0].len() - 3);
        let gga = seq![71u8, 71u8, 65u8];
        assert(tail[0] == f[0][f[0].len() - 3] && tail[1] == f[0][f[0].len() - 2] && tail[2]
            == f[0][f[0].len() - 1]);
        if tail[0] == 71 && tail[1] == 71 && tail[2] == 65 {
            assert(tail =~= gga);
        }
        if tail == gga {
            assert(gga[0] == 71 && gga[1] == 71 && gga[2] == 65);
        }
    }
    if f.len() >= 10 {
        if f[6].len() == 1 && f[6][0] == 48 {
            assert(f[6] =~= seq![48u8]);
        }
        assert(f[2].len() >= 2 ==> f[2].take(2) =~= f[2].subrange(0, 2) && f[2].skip(2)
            =~= f[2].subrange(2, f[2].len() as int));
        assert(f[4].len() >= 3 ==> f[4].take(3) =~= f[4].subrange(0, 3) && f[4].skip(3)
            =~= f[4].subrange(3, f[4].len() as int));
    }
}

/// The characters of text in ASCII, as bytes.
pub open spec fn bytes_of(text: Seq<char>) -> Seq<u8> {
    text.map_values(|c: char| c as u8)
}

/// The number of satellites is read as it is written, with a plus sign before it or not;
/// a number beyond 32 bits, text with anything but digits, or none at all, counts as none.
pub proof fn law_satellites_are_read_as_written(n: nat, text: Seq<u8>)
    ensures
        satellites_in(bytes_of(decimal(n))) == (if n <= 0xffff_ffff {
            n as int
        } else {
            0
        }),
        satellites_in(seq![43u8] + bytes_of(decimal(n))) == satellites_in(bytes_of(decimal(n))),
        text.len() == 0 ==> satellites_in(text) == 0,
        text.len() > 0 && text[0] != 43 && !(48 <= text[0] <= 57) ==> satellites_in(text) == 0,
        (exists|i: int| 1 <= i < text.len() && !(48 <= #[trigger] text[i] <= 57)) ==> satellites_in(
            text,
        ) == 0,
{
    let d = decimal(n);
    let b = bytes_of(d);
    law_decimal_reads_back(n);
    lemma_digits_value(d);
    assert(48 <= b[0] <= 57) by {
        assert(b[0] == d[0] as u8);
    }
    assert forall|i: int| 0 <= i < b.len() implies 48 <= #[trigger] b[i] <= 57 by {
        assert(b[i] == d[i] as u8);
    }
    assert(unsigned(b) == b);
    let signed = seq![43u8] + b;
    assert(signed.skip(1) =~= b);
    assert(unsigned(signed) == b);
    if exists|i: int| 1 <= i < text.len() && !(48 <= #[trigger] text[i] <= 57) {
        let i = choose|i: int| 1 <= i < text.len() && !(48 <= #[trigger] text[i] <= 57);
        if text[0] == 43 {
            assert(unsigned(text)[i - 1] == text[i]);
        } else {
            assert(unsigned(text)[i] == text[i]);
        }
        assert(number(text) is None);
    }
}

proof fn lemma_digits_value(d: Seq<char>)
    requires
        forall|i: int| 0 <= i < d.len() ==> '0' <= #[trigger] d[i] <= '9',
    ensures
        digits_value(bytes_of(d)) == reading(d),
    decreases d.len(),
{
    if d.len() > 0 {
        lemma_digits_value(d.drop_last());
        assert(bytes_of(d).drop_last() =~= bytes_of(d.drop_last()));
        assert(bytes_of(d).last() == d.last() as u8);
        assert('0' <= d[d.len() - 1] <= '9');
    }
}

/// The checksum of a body in two parts is made of those of its parts; that of a single byte
/// is the byte, and that of nothing is zero.
pub proof fn law_checksum_is_exclusive_or_of_all_bytes(a: Seq<u8>, b: Seq<u8>, byte: u8)
    ensures
        combined(Seq::empty()) == 0,
        combined(seq![byte]) == byte,
        combined(a + b) == combined(a) ^ combined(b),
    decreases b.len(),
{
    assert(seq![byte].drop_last() =~= Seq::empty());
    assert(combined(seq![byte]) == combined(seq![byte].drop_last()) ^ byte);
    assert(0u8 ^ byte == byte) by (bit_vector);
    if b.len() == 0 {
        assert(a + b =~= a);
        let x = combined(a);
        assert(x ^ 0u8 == x) by (bit_vector);
    } else {
        let rest = b.drop_last();
        law_checksum_is_exclusive_or_of_all_bytes(a, rest, byte);
        assert((a + b).drop_last() =~= a + rest);
        assert((a + b).last() == b.last());
        let x = combined(a);
        let y = combined(rest);
        let z = b.last();
        assert((x ^ y) ^ z == x ^ (y ^ z)) by (bit_vector);
    }
}

/// The value of a hexadecimal digit: of `0` to `9`, `A` to `F` and `a` to `f`, and of no
/// other byte.
pub proof fn law_hexadecimal_digits(b: u8)
    ensures
        hex_value(b) is Some <==> '0' <= b as char <= '9' || 'A' <= b as char <= 'F' || 'a'
            <= b as char <= 'f',
        hex_value(b) matches Some(v) ==> v < 16 && (b == 48 + v || b == 55 + v || b == 87 + v) && (b
            == 48 + v <==> v < 10),
{
}

/// A sentence around a body, with two characters after its last star, is accepted exactly if
/// these are hexadecimal digits whose number is the checksum of the body, and the body starts
/// with a whole character. What comes after them does not matter.
pub proof fn law_checksum_decides(
    first: u8,
    body: Seq<u8>,
    high: u8,
    low: u8,
    tail: Seq<u8>,
)
    requires
        high != 42,
        low != 42,
        forall|i: int| 0 <= i < tail.len() ==> #[trigger] tail[i] != 42,
    ensures
        carries_checksum(seq![first] + body + seq![42u8, high, low] + tail) <==> (body.len() > 0
            ==> !(128 <= body[0] < 192)) && hex_value(high) is Some && hex_value(low) is Some && 16
            * hex_value(high).unwrap() + hex_value(low).unwrap() == combined(body),
{
    let line = seq![first] + body + seq![42u8, high, low] + tail;
    let n = body.len() as int;
    assert(line[n + 1] == 42 && line[n + 2] == high && line[n + 3] == low);
    assert forall|i: int| n + 1 < i < line.len() implies #[trigger] line[i] != 42 by {
        if i >= n + 4 {
            assert(line[i] == tail[i - n - 4]);
        }
    }
    lemma_last_star(line, n + 1);
    assert(line.subrange(1, n + 1) =~= body);
    if n > 0 {
        assert(line[1] == body[0]);
    }
}

/// Without two characters after its last star, or without a star, a sentence is refused.
pub proof fn law_sentence_without_checksum_is_refused(line: Seq<u8>, star: int)
    requires
        -1 <= star < line.len(),
        star >= 0 ==> line[star] == 42,
        forall|i: int| star < i < line.len() ==> #[trigger] line[i] != 42,
        star < 1 || line.len() < star + 3,
    ensures
        !carries_checksum(line),
{
    lemma_last_star(line, star);
}

proof fn lemma_last_star(line: Seq<u8>, star: int)
    requires
        -1 <= star < line.len(),
        star >= 0 ==> line[star] == 42,
        forall|i: int| star < i < line.len() ==> #[trigger] line[i] != 42,
    ensures
        last_star(line) == star,
    decreases line.len(),
{
    if line.len() > 0 && star < line.len() - 1 {
        assert(line[line.len() - 1] != 42);
        lemma_last_star(line.drop_last(), star);
    }
}

} // verus!
