use vstd::prelude::*;
use image::DynamicImage;
use crate::codec::{is_png, load_png};
use crate::error::ErrorKind;
use crate::format::{
    COLON, EntryView, colon_offset, digits_value, entries_view, is_digit, latest, magic,
    lemma_prepend_push, parse_container, parse_entries, prepend, read_container, read_entries,
    valid_length,
};
use crate::table::{holds, insert_latest, keys_match, lemma_insert_keeps_keys};

verus! {

/// An image decoded from a PNG payload, with the payload it came from.
pub struct Decoded {
    pub image: DynamicImage,
    pub png: Ghost<Seq<u8>>,
}

/// The table holds the mapping: its names, once each, each with an image
/// decoded from the mapping's payload for that name.
pub open spec fn holds_decoded(t: Seq<(Vec<u8>, Decoded)>, m: Map<Seq<u8>, Seq<u8>>) -> bool {
    &&& keys_match(t, m)
    &&& forall|i: int| 0 <= i < t.len() ==> m[#[trigger] t[i].0@] == t[i].1.png@
}

/// What the entry loop is reading.
#[derive(Debug, Clone, Copy, PartialEq, Eq, Structural)]
pub enum Mode {
    /// Bytes up to the next delimiter form an entry's name.
    ReadingName,
    /// Bytes up to the next delimiter form the payload's length; the
    /// payload follows.
    ReadingSize,
}

/// The position of the first delimiter at or after `from`, or the length
/// of `s` where there is none.
pub fn find_colon(s: &Vec<u8>, from: usize) -> (r: usize)
    requires
        from <= s.len(),
    ensures
        r == from + colon_offset(s@, from as int),
        r <= s.len(),
        r < s.len() ==> s@[r as int] == COLON,
{
    let mut i: usize = from;
    while i < s.len() && s[i] != COLON
        invariant
            from <= i <= s.len(),
            from + colon_offset(s@, from as int) == i + colon_offset(s@, i as int),
        decreases s.len() - i,
    {
        i += 1;
    }
    i
}

/// A copy of `s[a..b]`.
pub fn copy_range(s: &Vec<u8>, a: usize, b: usize) -> (r: Vec<u8>)
    requires
        a <= b <= s.len(),
    ensures
        r@ == s@.subrange(a as int, b as int),
{
    let mut r: Vec<u8> = Vec::with_capacity(b - a);
    let mut i: usize = a;
    while i < b
        invariant
            a <= i <= b,
            b <= s.len(),
            r@ == s@.subrange(a as int, i as int),
        decreases b - i,
    {
        r.push(s[i]);
        i += 1;
        assert(r@ =~= s@.subrange(a as int, i as int));
    }
    r
}

proof fn lemma_digits_step(s: Seq<u8>, a: int, i: int)
    requires
        0 <= a <= i < s.len(),
    ensures
        digits_value(s.subrange(a, i + 1)) == digits_value(s.subrange(a, i)) * 10 + (s[i] - 48) as nat,
{
    assert(s.subrange(a, i + 1).drop_last() =~= s.subrange(a, i));
}

/// Among digit strings, a longer prefix is worth at least as much.
proof fn lemma_digits_grow(d: Seq<u8>, k: int)
    requires
        0 <= k <= d.len(),
        forall|i: int| 0 <= i < d.len() ==> is_digit(#[trigger] d[i]),
    ensures
        digits_value(d) >= digits_value(d.subrange(0, k)),
    decreases d.len(),
{
    if k < d.len() {
        let p = d.drop_last();
        assert forall|i: int| 0 <= i < p.len() implies is_digit(#[trigger] p[i]) by {
            assert(p[i] == d[i]);
        }
        lemma_digits_grow(p, k);
        assert(p.subrange(0, k) =~= d.subrange(0, k));
        assert(is_digit(d[d.len() - 1]));
    } else {
        assert(d.subrange(0, k) =~= d);
    }
}

/// Reads the length field `s[a..b]`: `None` unless it is a valid length.
pub fn parse_length(s: &Vec<u8>, a: usize, b: usize) -> (r: Option<usize>)
    requires
        a <= b <= s.len(),
    ensures
        match r {
            Some(n) => valid_length(s@.subrange(a as int, b as int)) && n == digits_value(
                s@.subrange(a as int, b as int),
            ),
            None => !valid_length(s@.subrange(a as int, b as int)),
        },
{
    let ghost d = s@.subrange(a as int, b as int);
    if a == b {
        return None;
    }
    let mut v: usize = 0;
    let mut i: usize = a;
    assert(s@.subrange(a as int, a as int) =~= Seq::<u8>::empty());
    while i < b
        invariant
            a <= i <= b,
            b <= s.len(),
            d == s@.subrange(a as int, b as int),
            forall|k: int| a <= k < i ==> is_digit(#[trigger] s@[k]),
            v == digits_value(s@.subrange(a as int, i as int)),
        decreases b - i,
    {
        let c = s[i];
        if c < 48 || c > 57 {
            assert(!is_digit(d[i - a]));
            return None;
        }
        let dv = (c - 48) as usize;
        proof {
            lemma_digits_step(s@, a as int, i as int);
        }
        if v > (usize::MAX - dv) / 10 {
            assert(v * 10 + dv > usize::MAX) by (nonlinear_arith)
                requires
                    v > (usize::MAX - dv) / 10,
                    dv <= 9,
            ;
            proof {
                if forall|k: int| 0 <= k < d.len() ==> is_digit(#[trigger] d[k]) {
                    lemma_digits_grow(d, i - a + 1);
                    assert(d.subrange(0, i - a + 1) =~= s@.subrange(a as int, i + 1));
                }
            }
            return None;
        }
        assert(v * 10 + dv <= usize::MAX) by (nonlinear_arith)
            requires
                v <= (usize::MAX - dv) / 10,
                dv <= 9,
        ;
        v = v * 10 + dv;
        i += 1;
    }
    assert(s@.subrange(a as int, i as int) =~= d);
    assert forall|k: int| 0 <= k < d.len() implies is_digit(#[trigger] d[k]) by {
        assert(d[k] == s@[a + k]);
    }
    Some(v)
}

/// The reader: first the four marker bytes, then, entry by entry, a name
/// up to a delimiter, a length up to a delimiter, and that many payload
/// bytes. With `images`, each payload is decoded as PNG as soon as it has
/// been read and goes into a table by name; else the entries are kept as
/// raw bytes, in order.
fn read(bytes: &Vec<u8>, images: bool) -> (r: Result<
    (Vec<(Vec<u8>, Vec<u8>)>, Vec<(Vec<u8>, Decoded)>),
    ErrorKind,
>)
    ensures
        !images ==> match r {
            Ok(p) => parse_container(bytes@) == Ok::<Seq<EntryView>, ErrorKind>(
                entries_view(p.0@),
            ),
            Err(k) => parse_container(bytes@) == Err::<Seq<EntryView>, ErrorKind>(k),
        },
        images ==> match r {
            Ok(p) => read_container(bytes@) matches Ok(es) && holds_decoded(p.1@, latest(es)),
            Err(k) => read_container(bytes@) == Err::<Seq<EntryView>, ErrorKind>(k),
        },
{
    let len = bytes.len();
    if len < 4 {
        return Err(ErrorKind::TruncatedMagic);
    }
    if !(bytes[0] == 83u8 && bytes[1] == 70u8 && bytes[2] == 65u8 && bytes[3] == 59u8) {
        assert(bytes@.subrange(0, 4) != magic()) by {
            if bytes@.subrange(0, 4) == magic() {
                assert(bytes@[0] == bytes@.subrange(0, 4)[0]);
                assert(bytes@[1] == bytes@.subrange(0, 4)[1]);
                assert(bytes@[2] == bytes@.subrange(0, 4)[2]);
                assert(bytes@[3] == bytes@.subrange(0, 4)[3]);
            }
        }
        return Err(ErrorKind::InvalidMagic);
    }
    assert(bytes@.subrange(0, 4) =~= magic());
    let ghost s = bytes@;
    let mut entries: Vec<(Vec<u8>, Vec<u8>)> = Vec::new();
    let mut table: Vec<(Vec<u8>, Decoded)> = Vec::new();
    let ghost mut seen: Seq<EntryView> = Seq::empty();
    let mut mode = Mode::ReadingName;
    let mut start: usize = 4;
    let mut pos: usize = 4;
    let mut name: Vec<u8> = Vec::new();
    assert(entries_view(entries@) =~= Seq::<EntryView>::empty());
    loop
        invariant
            s == bytes@,
            len == s.len(),
            4 <= start <= pos <= len,
            parse_container(s) == prepend(seen, parse_entries(s, start as int)),
            images ==> read_container(s) == prepend(seen, read_entries(s, start as int)),
            !images ==> entries_view(entries@) == seen,
            images ==> holds_decoded(table@, latest(seen)),
            mode == Mode::ReadingName ==> pos == start,
            mode == Mode::ReadingSize ==> {
                &&& start < pos
                &&& pos - 1 == start + colon_offset(s, start as int)
                &&& s[pos - 1] == COLON
                &&& name@ == s.subrange(start as int, pos - 1)
            },
        decreases len - pos,
    {
        match mode {
            Mode::ReadingName => {
                if pos == len {
                    assert(seen + Seq::<EntryView>::empty() =~= seen);
                    return Ok((entries, table));
                }
                let c = find_colon(bytes, pos);
                if c == len {
                    return Err(ErrorKind::TruncatedHeader);
                }
                name = copy_range(bytes, pos, c);
                pos = c + 1;
                mode = Mode::ReadingSize;
            },
            Mode::ReadingSize => {
                let c = find_colon(bytes, pos);
                if c == len {
                    return Err(ErrorKind::TruncatedHeader);
                }
                let n = match parse_length(bytes, pos, c) {
                    Some(n) => n,
                    None => {
                        return Err(ErrorKind::InvalidLength);
                    },
                };
                if n > len - (c + 1) {
                    return Err(ErrorKind::TruncatedPayload);
                }
                let end = c + 1 + n;
                let payload = copy_range(bytes, c + 1, end);
                let ghost e: EntryView = (name@, payload@);
                let ghost old_entries = entries@;
                let taken = name;
                name = Vec::new();
                if images {
                    let image = match load_png(&payload) {
                        Some(im) => im,
                        None => {
                            return Err(ErrorKind::InvalidPayload);
                        },
                    };
                    let decoded = Decoded { image, png: Ghost(payload@) };
                    let ghost before = table@;
                    let ghost row = (taken, decoded);
                    insert_latest(&mut table, taken, decoded);
                    proof {
                        lemma_insert_keeps_keys(before, table@, seen, row.0, row.1, payload@);
                        let s2 = seen.push(e);
                        assert(s2.drop_last() =~= seen);
                        assert forall|i: int| 0 <= i < table@.len() implies latest(s2)[
                            #[trigger] table@[i].0@] == table@[i].1.png@ by {
                            if table@[i].0@ != row.0@ {
                                let k = choose|k: int|
                                    0 <= k < before.len() && #[trigger] before[k] == table@[i]
                                        && before[k].0@ != row.0@;
                                assert(latest(seen)[before[k].0@] == before[k].1.png@);
                            }
                        }
                    }
                } else {
                    entries.push((taken, payload));
                    proof {
                        assert(entries_view(entries@) =~= entries_view(old_entries).push(e));
                    }
                }
                proof {
                    lemma_prepend_push(seen, e, parse_entries(s, end as int));
                    lemma_prepend_push(seen, e, read_entries(s, end as int));
                    seen = seen.push(e);
                }
                pos = end;
                start = end;
                mode = Mode::ReadingName;
            },
        }
    }
}

/// Reads a whole container into its entries, in order, names and payloads
/// as raw bytes.
pub fn parse(bytes: &Vec<u8>) -> (r: Result<Vec<(Vec<u8>, Vec<u8>)>, ErrorKind>)
    ensures
        match r {
            Ok(v) => parse_container(bytes@) == Ok::<Seq<EntryView>, ErrorKind>(entries_view(v@)),
            Err(k) => parse_container(bytes@) == Err::<Seq<EntryView>, ErrorKind>(k),
        },
{
    match read(bytes, false) {
        Ok(p) => Ok(p.0),
        Err(k) => Err(k),
    }
}

/// Every payload is a PNG image.
pub open spec fn all_png(es: Seq<EntryView>) -> bool {
    forall|i: int| 0 <= i < es.len() ==> is_png(#[trigger] es[i].1)
}

/// The mapping from name to payload that the entries make, a later entry
/// replacing an earlier one of the same name.
pub fn latest_payloads(entries: &Vec<(Vec<u8>, Vec<u8>)>) -> (r: Vec<(Vec<u8>, Vec<u8>)>)
    ensures
        holds(r@, latest(entries_view(entries@))),
{
    let mut table: Vec<(Vec<u8>, Vec<u8>)> = Vec::new();
    let mut j: usize = 0;
    assert(entries_view(entries@.subrange(0, 0)) =~= Seq::<EntryView>::empty());
    while j < entries.len()
        invariant
            j <= entries.len(),
            holds(table@, latest(entries_view(entries@.subrange(0, j as int)))),
        decreases entries.len() - j,
    {
        let name = copy_range(&entries[j].0, 0, entries[j].0.len());
        let payload = copy_range(&entries[j].1, 0, entries[j].1.len());
        assert(name@ =~= entries@[j as int].0@);
        assert(payload@ =~= entries@[j as int].1@);
        let ghost es = entries_view(entries@.subrange(0, j as int));
        let ghost before = table@;
        let ghost row = (name, payload);
        insert_latest(&mut table, name, payload);
        proof {
            lemma_insert_keeps_keys(before, table@, es, row.0, row.1, row.1@);
            let es2 = es.push((row.0@, row.1@));
            assert(entries_view(entries@.subrange(0, j as int + 1)) =~= es2);
            assert(es2.drop_last() =~= es);
            assert forall|i: int| 0 <= i < table@.len() implies latest(es2)[#[trigger] table@[i].0@]
                == table@[i].1@ by {
                if table@[i].0@ != row.0@ {
                    let k = choose|k: int| 0 <= k < before.len() && #[trigger] before[k] == table@[i]
                        && before[k].0@ != row.0@;
                    assert(latest(es)[before[k].0@] == before[k].1@);
                }
            }
        }
        j += 1;
    }
    assert(entries@.subrange(0, j as int) =~= entries@);
    table
}

/// Reads a container, decoding each payload as PNG as soon as it has been
/// read. The result holds each name of the container exactly once, with
/// the image decoded from the last payload of that name.
pub fn decode_from_bytes(bytes: &Vec<u8>) -> (r: Result<Vec<(Vec<u8>, Decoded)>, ErrorKind>)
    ensures
        match read_container(bytes@) {
            Err(k) => r == Err::<Vec<(Vec<u8>, Decoded)>, ErrorKind>(k),
            Ok(es) => r matches Ok(t) && holds_decoded(t@, latest(es)),
        },
{
    match read(bytes, true) {
        Ok(p) => Ok(p.1),
        Err(k) => Err(k),
    }
}

} // verus!
