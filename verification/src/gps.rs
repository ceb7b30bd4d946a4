//! Sentences of a GPS receiver: their checksum, their fields, and the position that a fix
//! carries.

use vstd::prelude::*;
use vstd::string::StringSliceAdditionalSpecFns;

use crate::number::Real64;
use crate::text::{trim, trimmed};
use crate::types::GpsFix;

verus! {

/// The text of a fix, as a receiver sends it. The numbers are still text.
pub struct Reading {
    /// Latitude: whole degrees, and minutes.
    pub lat_degrees: Vec<u8>,
    pub lat_minutes: Vec<u8>,
    /// Whether the latitude is southern.
    pub south: bool,
    /// Longitude: whole degrees, and minutes.
    pub lon_degrees: Vec<u8>,
    pub lon_minutes: Vec<u8>,
    /// Whether the longitude is western.
    pub west: bool,
    /// Altitude in meters.
    pub altitude: Vec<u8>,
    /// How many satellites the fix rests on.
    pub satellites: u32,
}

/// A reading as a mathematical value.
pub struct ReadingView {
    pub lat_degrees: Seq<u8>,
    pub lat_minutes: Seq<u8>,
    pub south: bool,
    pub lon_degrees: Seq<u8>,
    pub lon_minutes: Seq<u8>,
    pub west: bool,
    pub altitude: Seq<u8>,
    pub satellites: u32,
}

impl View for Reading {
    type V = ReadingView;

    open spec fn view(&self) -> ReadingView {
        ReadingView {
            lat_degrees: self.lat_degrees@,
            lat_minutes: self.lat_minutes@,
            south: self.south,
            lon_degrees: self.lon_degrees@,
            lon_minutes: self.lon_minutes@,
            west: self.west,
            altitude: self.altitude@,
            satellites: self.satellites,
        }
    }
}

/// The bytes that matter in a sentence.
pub const DOLLAR: u8 = 36;

pub const STAR: u8 = 42;

pub const PLUS: u8 = 43;

pub const COMMA: u8 = 44;

/// All bytes combined with exclusive or.
pub open spec fn combined(bytes: Seq<u8>) -> u8
    decreases bytes.len(),
{
    if bytes.len() == 0 {
        0
    } else {
        combined(bytes.drop_last()) ^ bytes.last()
    }
}

/// The place of the last star, or -1 where there is none.
pub open spec fn last_star(line: Seq<u8>) -> int
    decreases line.len(),
{
    if line.len() == 0 {
        -1
    } else if line.last() == STAR {
        line.len() - 1
    } else {
        last_star(line.drop_last())
    }
}

/// The value of a hexadecimal digit of either case.
pub open spec fn hex_value(b: u8) -> Option<u8> {
    if 48 <= b <= 57 {
        Some((b - 48) as u8)
    } else if 65 <= b <= 70 {
        Some((b - 55) as u8)
    } else if 97 <= b <= 102 {
        Some((b - 87) as u8)
    } else {
        None
    }
}

/// The number that two hexadecimal digits stand for.
pub open spec fn hex_number(high: u8, low: u8) -> Option<u8> {
    match (hex_value(high), hex_value(low)) {
        (Some(h), Some(l)) => Some((16 * h + l) as u8),
        _ => None,
    }
}

/// Whether a byte continues a character that an earlier byte began.
pub open spec fn continuation(b: u8) -> bool {
    128 <= b < 192
}

/// Whether a sentence carries its checksum: the bytes between its first character, which
/// takes one byte, and its last star, combined with exclusive or, are the number that the
/// two hexadecimal digits after the star stand for.
pub open spec fn carries_checksum(line: Seq<u8>) -> bool {
    let star = last_star(line);
    &&& 1 <= star
    &&& star + 3 <= line.len()
    &&& !continuation(line[1])
    &&& hex_number(line[star + 1], line[star + 2]) == Some(combined(line.subrange(1, star)))
}

/// The parts of a line between its commas.
pub open spec fn fields(line: Seq<u8>) -> Seq<Seq<u8>>
    decreases line.len(),
{
    if line.len() == 0 {
        seq![Seq::empty()]
    } else {
        let before = fields(line.drop_last());
        if line.last() == COMMA {
            before.push(Seq::empty())
        } else {
            before.drop_last().push(before.last().push(line.last()))
        }
    }
}

/// The number that decimal digits stand for.
pub open spec fn digits_value(digits: Seq<u8>) -> int
    decreases digits.len(),
{
    if digits.len() == 0 {
        0
    } else {
        10 * digits_value(digits.drop_last()) + (digits.last() - 48)
    }
}

/// Whether there is at least one byte, and all bytes are decimal digits.
pub open spec fn all_digits(text: Seq<u8>) -> bool {
    text.len() > 0 && forall|i: int| 0 <= i < text.len() ==> 48 <= #[trigger] text[i] <= 57
}

/// Text without the plus sign that it may start with.
pub open spec fn unsigned(text: Seq<u8>) -> Seq<u8> {
    if text.len() > 0 && text[0] == PLUS {
        text.skip(1)
    } else {
        text
    }
}

/// The number that text stands for: decimal digits, after a plus sign or not, of which 32
/// bits can hold the value.
pub open spec fn number(text: Seq<u8>) -> Option<u32> {
    if all_digits(unsigned(text)) && digits_value(unsigned(text)) <= u32::MAX {
        Some(digits_value(unsigned(text)) as u32)
    } else {
        None
    }
}

/// The satellites that a sentence reports. Text that is no number counts as none.
pub open spec fn satellites_in(field: Seq<u8>) -> u32 {
    match number(field) {
        Some(n) => n,
        None => 0,
    }
}

/// Whether a field ends in `GGA`, the kind of a fix.
pub open spec fn is_fix(kind: Seq<u8>) -> bool {
    kind.len() >= 3 && kind.skip(kind.len() - 3) == seq![71u8, 71u8, 65u8]
}

/// The reading of a sentence that carries its checksum. There is one if the sentence is a
/// fix with all fields, the receiver says that the fix is valid, enough satellites were in
/// view, and both coordinates are long enough to hold degrees and minutes.
pub open spec fn reading_of(line: Seq<u8>, min_satellites: u32) -> Option<ReadingView> {
    let f = fields(line);
    if !is_fix(f[0]) || f.len() <= 9 || f[6] == seq![48u8] || satellites_in(f[7]) < min_satellites
        || f[2].len() < 3 || f[4].len() < 4 {
        None
    } else {
        Some(
            ReadingView {
                lat_degrees: f[2].take(2),
                lat_minutes: f[2].skip(2),
                south: f[3] == seq![83u8],
                lon_degrees: f[4].take(3),
                lon_minutes: f[4].skip(3),
                west: f[5] == seq![87u8],
                altitude: f[9],
                satellites: satellites_in(f[7]),
            },
        )
    }
}

/// The reading of a line: of its trimmed text, if that starts with a dollar sign and
/// carries its checksum.
pub open spec fn reading_in(line: Seq<u8>, min_satellites: u32) -> Option<ReadingView> {
    if line.len() > 0 && line[0] == DOLLAR && carries_checksum(line) {
        reading_of(line, min_satellites)
    } else {
        None
    }
}

/// The value of a hexadecimal digit.
fn hex_digit(b: u8) -> (v: Option<u8>)
    ensures
        v == hex_value(b),
{
    if 48 <= b && b <= 57 {
        Some(b - 48)
    } else if 65 <= b && b <= 70 {
        Some(b - 55)
    } else if 97 <= b && b <= 102 {
        Some(b - 87)
    } else {
        None
    }
}

/// The number that two hexadecimal digits stand for.
fn hex_pair(high: u8, low: u8) -> (v: Option<u8>)
    ensures
        v == hex_number(high, low),
{
    match (hex_digit(high), hex_digit(low)) {
        (Some(h), Some(l)) => Some(16 * h + l),
        _ => None,
    }
}

/// Whether the bytes of a sentence carry its checksum.
fn checksum_holds(line: &[u8]) -> (r: bool)
    ensures
        r == carries_checksum(line@),
{
    let mut end: usize = line.len();
    assert(line@.take(end as int) =~= line@);
    while end > 0 && line[end - 1] != STAR
        invariant
            end <= line@.len(),
            last_star(line@) == last_star(line@.take(end as int)),
        decreases end,
    {
        assert(line@.take(end as int).drop_last() =~= line@.take(end - 1));
        end = end - 1;
    }
    if end < 2 {
        return false;
    }
    let star: usize = end - 1;
    assert(last_star(line@) == star);
    if line.len() - star < 3 || (128 <= line[1] && line[1] < 192) {
        return false;
    }
    let mut computed: u8 = 0;
    let mut i: usize = 1;
    while i < star
        invariant
            1 <= i <= star,
            star < line@.len(),
            computed == combined(line@.subrange(1, i as int)),
        decreases star - i,
    {
        assert(line@.subrange(1, i + 1).drop_last() =~= line@.subrange(1, i as int));
        computed = computed ^ line[i];
        i = i + 1;
    }
    match hex_pair(line[star + 1], line[star + 2]) {
        Some(given) => given == computed,
        None => false,
    }
}

/// Whether a sentence carries its checksum.
pub fn checksum_ok(line: &str) -> (r: bool)
    ensures
        r == carries_checksum(line.spec_bytes()),
{
    checksum_holds(line.as_bytes())
}

/// A part of the bytes.
fn part(bytes: &Vec<u8>, from: usize, to: usize) -> (r: Vec<u8>)
    requires
        from <= to <= bytes@.len(),
    ensures
        r@ == bytes@.subrange(from as int, to as int),
{
    let mut r: Vec<u8> = Vec::new();
    let mut i: usize = from;
    while i < to
        invariant
            from <= i <= to <= bytes@.len(),
            r@ == bytes@.subrange(from as int, i as int),
        decreases to - i,
    {
        r.push(bytes[i]);
        i = i + 1;
        assert(r@ =~= bytes@.subrange(from as int, i as int));
    }
    r
}

/// The bytes of lists of bytes.
pub open spec fn contents(parts: Seq<Vec<u8>>) -> Seq<Seq<u8>> {
    parts.map_values(|p: Vec<u8>| p@)
}

/// The parts of a line between its commas.
fn split_fields(line: &[u8]) -> (parts: Vec<Vec<u8>>)
    ensures
        contents(parts@) == fields(line@),
        parts@.len() > 0,
{
    let mut done: Vec<Vec<u8>> = Vec::new();
    let mut current: Vec<u8> = Vec::new();
    let mut i: usize = 0;
    assert(contents(done@).push(current@) =~= fields(line@.take(0)));
    while i < line.len()
        invariant
            i <= line@.len(),
            contents(done@).push(current@) == fields(line@.take(i as int)),
        decreases line@.len() - i,
    {
        let ghost before = contents(done@).push(current@);
        assert(line@.take(i + 1).drop_last() =~= line@.take(i as int));
        assert(before.drop_last() =~= contents(done@));
        if line[i] == COMMA {
            let ghost was = done@;
            let ghost last = current;
            done.push(current);
            current = Vec::new();
            assert(contents(done@) =~= contents(was).push(last@));
            assert(contents(done@).push(current@) =~= before.push(Seq::empty()));
        } else {
            current.push(line[i]);
        }
        i = i + 1;
    }
    assert(line@.take(i as int) =~= line@);
    let ghost was = done@;
    let ghost last = current;
    done.push(current);
    assert(contents(done@) =~= contents(was).push(last@));
    done
}

/// More digits do not make a number smaller.
proof fn lemma_value_grows(digits: Seq<u8>, n: int)
    requires
        0 <= n <= digits.len(),
        forall|i: int| 0 <= i < digits.len() ==> 48 <= #[trigger] digits[i] <= 57,
    ensures
        0 <= digits_value(digits.take(n)) <= digits_value(digits),
    decreases digits.len(),
{
    if n == digits.len() {
        assert(digits.take(n) =~= digits);
        if n > 0 {
            let rest = digits.drop_last();
            lemma_value_grows(rest, n - 1);
        }
    } else {
        let rest = digits.drop_last();
        lemma_value_grows(rest, n);
        assert(rest.take(n) =~= digits.take(n));
    }
}

/// The number that text stands for.
fn parse_number(text: &Vec<u8>) -> (v: Option<u32>)
    ensures
        v == number(text@),
{
    let start: usize = if text.len() > 0 && text[0] == PLUS {
        1
    } else {
        0
    };
    let ghost digits = unsigned(text@);
    assert(digits =~= text@.skip(start as int));
    if start == text.len() {
        return None;
    }
    let mut i: usize = start;
    while i < text.len()
        invariant
            start <= i <= text@.len(),
            digits == text@.skip(start as int),
            digits == unsigned(text@),
            forall|j: int| 0 <= j < i - start ==> 48 <= #[trigger] digits[j] <= 57,
        decreases text@.len() - i,
    {
        assert(digits[i - start] == text@[i as int]);
        if text[i] < 48 || 57 < text[i] {
            return None;
        }
        i = i + 1;
    }
    let mut value: u64 = 0;
    i = start;
    assert(digits.take(0) =~= Seq::<u8>::empty());
    while i < text.len()
        invariant
            start <= i <= text@.len(),
            digits == text@.skip(start as int),
            forall|j: int| 0 <= j < digits.len() ==> 48 <= #[trigger] digits[j] <= 57,
            value == digits_value(digits.take(i - start)),
            value <= u32::MAX,
            digits == unsigned(text@),
        decreases text@.len() - i,
    {
        assert(digits[i - start] == text@[i as int]);
        assert(digits.take(i + 1 - start).drop_last() =~= digits.take(i - start));
        value = 10 * value + (text[i] - 48) as u64;
        i = i + 1;
        if value > u32::MAX as u64 {
            proof {
                lemma_value_grows(digits, i - start);
            }
            return None;
        }
    }
    assert(digits.take(i - start) =~= digits);
    Some(value as u32)
}

/// Whether a field holds one given byte and nothing else.
fn is_byte(field: &Vec<u8>, b: u8) -> (r: bool)
    ensures
        r == (field@ == seq![b]),
{
    if field.len() == 1 && field[0] == b {
        assert(field@ =~= seq![b]);
        true
    } else {
        assert(seq![b].len() == 1 && seq![b][0] == b);
        false
    }
}

/// Whether a field ends in `GGA`.
fn ends_in_gga(kind: &Vec<u8>) -> (r: bool)
    ensures
        r == is_fix(kind@),
{
    let n: usize = kind.len();
    if n < 3 {
        return false;
    }
    let ghost tail = kind@.skip(n - 3);
    assert(tail.len() == 3 && tail[0] == kind@[n - 3] && tail[1] == kind@[n - 2] && tail[2]
        == kind@[n - 1]);
    if kind[n - 3] == 71 && kind[n - 2] == 71 && kind[n - 1] == 65 {
        assert(tail =~= seq![71u8, 71u8, 65u8]);
        true
    } else {
        assert(seq![71u8, 71u8, 65u8][0] == 71 && seq![71u8, 71u8, 65u8][1] == 71 && seq![
            71u8,
            71u8,
            65u8,
        ][2] == 65);
        false
    }
}

/// The reading of a sentence that carries its checksum.
fn parse_fix(line: &[u8], min_satellites: u32) -> (reading: Option<Reading>)
    ensures
        reading is Some <==> reading_of(line@, min_satellites) is Some,
        reading matches Some(r) ==> Some(r@) == reading_of(line@, min_satellites),
{
    let f = split_fields(line);
    let ghost fs = fields(line@);
    assert(fs.len() == f@.len());
    assert forall|i: int| 0 <= i < f@.len() implies (#[trigger] f@[i])@ == fs[i] by {
        assert(contents(f@)[i] == f@[i]@);
    }
    if !ends_in_gga(&f[0]) || f.len() <= 9 {
        return None;
    }
    if is_byte(&f[6], 48) {
        return None;
    }
    let satellites: u32 = match parse_number(&f[7]) {
        Some(n) => n,
        None => 0,
    };
    if satellites < min_satellites {
        return None;
    }
    if f[2].len() < 3 || f[4].len() < 4 {
        return None;
    }
    let lat_len: usize = f[2].len();
    let lon_len: usize = f[4].len();
    let reading = Reading {
        lat_degrees: part(&f[2], 0, 2),
        lat_minutes: part(&f[2], 2, lat_len),
        south: is_byte(&f[3], 83),
        lon_degrees: part(&f[4], 0, 3),
        lon_minutes: part(&f[4], 3, lon_len),
        west: is_byte(&f[5], 87),
        altitude: f[9].clone(),
        satellites,
    };
    assert(reading.altitude@ =~= fs[9]);
    assert(reading.lat_degrees@ =~= fs[2].take(2));
    assert(reading.lat_minutes@ =~= fs[2].skip(2));
    assert(reading.lon_degrees@ =~= fs[4].take(3));
    assert(reading.lon_minutes@ =~= fs[4].skip(3));
    Some(reading)
}

/// The reading of a sentence, if it is a valid fix with at least `min_satellites`
/// satellites in view.
pub fn read_sentence(sentence: &str, min_satellites: u32) -> (reading: Option<Reading>)
    ensures
        reading is Some <==> reading_in(sentence.spec_bytes(), min_satellites) is Some,
        reading matches Some(r) ==> Some(r@) == reading_in(
            sentence.spec_bytes(),
            min_satellites,
        ),
{
    let bytes = sentence.as_bytes();
    if bytes.len() == 0 || bytes[0] != DOLLAR || !checksum_ok(sentence) {
        return None;
    }
    parse_fix(bytes, min_satellites)
}

/// The reading of a line as it comes from the receiver: of the sentence without the white
/// space around it.
pub fn read_line(line: &str, min_satellites: u32) -> (reading: Option<Reading>)
    ensures
        reading is Some <==> reading_in(
            vstd::utf8::encode_utf8(trimmed(line@)),
            min_satellites,
        ) is Some,
        reading matches Some(r) ==> Some(r@) == reading_in(
            vstd::utf8::encode_utf8(trimmed(line@)),
            min_satellites,
        ),
{
    read_sentence(trim(line), min_satellites)
}

/// The fix of a reading, from the values of its numbers: `lat` and `lon` in degrees without
/// their sign, `altitude` in meters, each missing where the text is no number. A fix needs
/// both coordinates; south and west count negative.
pub open spec fn fix_of(
    reading: ReadingView,
    lat: Option<Real64>,
    lon: Option<Real64>,
    altitude: Option<Real64>,
) -> Option<GpsFix> {
    match (lat, lon) {
        (Some(lat), Some(lon)) => Some(
            GpsFix {
                lat: if reading.south {
                    lat.opposite()
                } else {
                    lat
                },
                lon: if reading.west {
                    lon.opposite()
                } else {
                    lon
                },
                altitude_m: altitude,
                satellites: Some(reading.satellites),
            },
        ),
        _ => None,
    }
}

/// The fix of a reading, from the values of its numbers.
pub fn settle_fix(
    reading: &Reading,
    lat: Option<Real64>,
    lon: Option<Real64>,
    altitude: Option<Real64>,
) -> (fix: Option<GpsFix>)
    ensures
        fix == fix_of(reading@, lat, lon, altitude),
{
    match (lat, lon) {
        (Some(lat), Some(lon)) => Some(
            GpsFix {
                lat: if reading.south {
                    lat.negated()
                } else {
                    lat
                },
                lon: if reading.west {
                    lon.negated()
                } else {
                    lon
                },
                altitude_m: altitude,
                satellites: Some(reading.satellites),
            },
        ),
        _ => None,
    }
}

/// The character of a hexadecimal digit.
pub open spec fn hex_character(v: u8) -> u8 {
    if v < 10 {
        (48 + v) as u8
    } else {
        (55 + v) as u8
    }
}

/// A sentence around a body: a dollar sign, the body, a star and the checksum.
pub open spec fn framed(body: Seq<u8>) -> Seq<u8> {
    let sum = combined(body);
    seq![DOLLAR] + body + seq![STAR, hex_character((sum / 16) as u8), hex_character((sum % 16) as u8)]
}

/// Every body that starts with a whole character is accepted when it is framed with its
/// checksum, whatever stars it holds.
pub proof fn law_framed_body_is_accepted(body: Seq<u8>)
    requires
        body.len() > 0 ==> !continuation(body[0]),
    ensures
        carries_checksum(framed(body)),
{
    let line = framed(body);
    let sum = combined(body);
    let n = body.len() as int;
    assert(line[n + 1] == STAR);
    assert(line[n + 2] == hex_character((sum / 16) as u8));
    assert(line[n + 3] == hex_character((sum % 16) as u8));
    let once = line.drop_last();
    let twice = once.drop_last();
    assert(line.last() != STAR);
    assert(once.last() == line[n + 2] && once.last() != STAR);
    assert(twice.last() == STAR);
    assert(last_star(twice) == n + 1);
    assert(last_star(once) == last_star(twice));
    assert(last_star(line) == n + 1);
    assert(line.subrange(1, n + 1) =~= body);
    if n > 0 {
        assert(line[1] == body[0]);
    }
}

/// One changed byte is always noticed: it changes the checksum.
pub proof fn law_one_changed_byte_is_noticed(body: Seq<u8>, i: int, b: u8)
    requires
        0 <= i < body.len(),
        b != body[i],
    ensures
        combined(body.update(i, b)) != combined(body),
    decreases body.len(),
{
    let changed = body.update(i, b);
    let rest = body.drop_last();
    if i == body.len() - 1 {
        assert(changed.drop_last() =~= rest);
        let x = combined(rest);
        let y = body.last();
        assert(b != y ==> x ^ b != x ^ y) by (bit_vector);
    } else {
        law_one_changed_byte_is_noticed(rest, i, b);
        assert(changed.drop_last() =~= rest.update(i, b));
        let x = combined(rest.update(i, b));
        let y = combined(rest);
        let z = body.last();
        assert(x != y ==> x ^ z != y ^ z) by (bit_vector);
    }
}

/// A fix always rests on at least as many satellites as were asked for.
pub proof fn law_fix_has_enough_satellites(
    line: Seq<u8>,
    min_satellites: u32,
    lat: Option<Real64>,
    lon: Option<Real64>,
    altitude: Option<Real64>,
)
    requires
        reading_in(line, min_satellites) is Some,
    ensures
        fix_of(reading_in(line, min_satellites).unwrap(), lat, lon, altitude) matches Some(fix)
            ==> fix.satellites is Some && fix.satellites.unwrap() >= min_satellites,
{
}

/// A sentence that was not meant to be a fix, was cut short, is marked as invalid or rests
/// on too few satellites gives no reading.
pub proof fn law_unusable_fix_is_passed_over(line: Seq<u8>, min_satellites: u32)
    requires
        !carries_checksum(line) || !is_fix(fields(line)[0]) || fields(line).len() <= 9
            || fields(line)[6] == seq![48u8] || satellites_in(fields(line)[7]) < min_satellites,
    ensures
        reading_in(line, min_satellites) is None,
{
}

} // verus!
