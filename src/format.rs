use vstd::prelude::*;
use crate::codec::is_png;
use crate::error::ErrorKind;

verus! {

/// The delimiter that ends a name and a length field.
pub const COLON: u8 = 58;

/// One entry of a container: a name and its payload bytes.
pub type EntryView = (Seq<u8>, Seq<u8>);

/// The four bytes `SFA;` that open every container.
pub open spec fn magic() -> Seq<u8> {
    seq![83u8, 70u8, 65u8, 59u8]
}

pub open spec fn is_digit(b: u8) -> bool {
    48 <= b <= 57
}

/// The ASCII decimal digits of `n`, without leading zeros.
pub open spec fn decimal(n: nat) -> Seq<u8>
    decreases n,
{
    if n < 10 {
        seq![(48 + n) as u8]
    } else {
        decimal(n / 10).push((48 + n % 10) as u8)
    }
}

/// The number that a sequence of decimal digits stands for.
pub open spec fn digits_value(d: Seq<u8>) -> nat
    decreases d.len(),
{
    if d.len() == 0 {
        0
    } else {
        digits_value(d.drop_last()) * 10 + (d.last() - 48) as nat
    }
}

/// A length field: one or more digits whose value fits in `usize`.
pub open spec fn valid_length(d: Seq<u8>) -> bool {
    &&& d.len() > 0
    &&& forall|i: int| 0 <= i < d.len() ==> is_digit(#[trigger] d[i])
    &&& digits_value(d) <= usize::MAX
}

/// A name that can be written: it holds no delimiter.
pub open spec fn valid_name(name: Seq<u8>) -> bool {
    !name.contains(COLON)
}

pub open spec fn valid_names(es: Seq<EntryView>) -> bool {
    forall|i: int| 0 <= i < es.len() ==> valid_name(#[trigger] es[i].0)
}

/// `<name>:<decimal length>:<payload>`
pub open spec fn entry_bytes(e: EntryView) -> Seq<u8> {
    e.0 + seq![COLON] + decimal(e.1.len()) + seq![COLON] + e.1
}

/// The entries' bytes, one after the other, in order.
pub open spec fn entries_bytes(es: Seq<EntryView>) -> Seq<u8>
    decreases es.len(),
{
    if es.len() == 0 {
        Seq::empty()
    } else {
        entries_bytes(es.drop_last()) + entry_bytes(es.last())
    }
}

/// The whole container that holds `es`.
pub open spec fn container(es: Seq<EntryView>) -> Seq<u8> {
    magic() + entries_bytes(es)
}

/// How many bytes from `from` on come before the next delimiter (or the end).
pub open spec fn colon_offset(s: Seq<u8>, from: int) -> nat
    decreases s.len() - from,
{
    if from < 0 || from >= s.len() || s[from] == COLON {
        0
    } else {
        1 + colon_offset(s, from + 1)
    }
}

/// Puts `front` before the entries of a successful parse.
pub open spec fn prepend(front: Seq<EntryView>, r: Result<Seq<EntryView>, ErrorKind>) -> Result<
    Seq<EntryView>,
    ErrorKind,
> {
    match r {
        Ok(rest) => Ok(front + rest),
        Err(e) => Err(e),
    }
}

/// The entries that `s` holds from `pos` on, or the first fault met.
pub open spec fn parse_entries(s: Seq<u8>, pos: int) -> Result<Seq<EntryView>, ErrorKind>
    decreases s.len() - pos,
{
    if pos < 0 || pos >= s.len() {
        Ok(Seq::empty())
    } else {
        let name_end = pos + colon_offset(s, pos);
        let size_end = name_end + 1 + colon_offset(s, name_end + 1);
        if name_end >= s.len() || size_end >= s.len() {
            Err(ErrorKind::TruncatedHeader)
        } else {
            let digits = s.subrange(name_end + 1, size_end);
            if !valid_length(digits) {
                Err(ErrorKind::InvalidLength)
            } else {
                let end = size_end + 1 + digits_value(digits);
                if end > s.len() {
                    Err(ErrorKind::TruncatedPayload)
                } else {
                    let e = (s.subrange(pos, name_end), s.subrange(size_end + 1, end));
                    prepend(seq![e], parse_entries(s, end))
                }
            }
        }
    }
}

/// What a reader makes of the bytes `s`: the entries in order, or a fault.
pub open spec fn parse_container(s: Seq<u8>) -> Result<Seq<EntryView>, ErrorKind> {
    if s.len() < 4 {
        Err(ErrorKind::TruncatedMagic)
    } else if s.subrange(0, 4) != magic() {
        Err(ErrorKind::InvalidMagic)
    } else {
        parse_entries(s, 4)
    }
}

/// What a decoding reader makes of `s` from `pos` on: as `parse_entries`,
/// but each payload is decoded as soon as it has been read, so that a
/// payload that is not PNG fails with `InvalidPayload` whatever follows it.
pub open spec fn read_entries(s: Seq<u8>, pos: int) -> Result<Seq<EntryView>, ErrorKind>
    decreases s.len() - pos,
{
    if pos < 0 || pos >= s.len() {
        Ok(Seq::empty())
    } else {
        let name_end = pos + colon_offset(s, pos);
        let size_end = name_end + 1 + colon_offset(s, name_end + 1);
        if name_end >= s.len() || size_end >= s.len() {
            Err(ErrorKind::TruncatedHeader)
        } else {
            let digits = s.subrange(name_end + 1, size_end);
            if !valid_length(digits) {
                Err(ErrorKind::InvalidLength)
            } else {
                let end = size_end + 1 + digits_value(digits);
                if end > s.len() {
                    Err(ErrorKind::TruncatedPayload)
                } else {
                    let e = (s.subrange(pos, name_end), s.subrange(size_end + 1, end));
                    if !is_png(e.1) {
                        Err(ErrorKind::InvalidPayload)
                    } else {
                        prepend(seq![e], read_entries(s, end))
                    }
                }
            }
        }
    }
}

/// What a decoding reader makes of the bytes `s`: the entries in order,
/// every payload a PNG image, or the first fault met.
pub open spec fn read_container(s: Seq<u8>) -> Result<Seq<EntryView>, ErrorKind> {
    if s.len() < 4 {
        Err(ErrorKind::TruncatedMagic)
    } else if s.subrange(0, 4) != magic() {
        Err(ErrorKind::InvalidMagic)
    } else {
        read_entries(s, 4)
    }
}

/// The mapping from name to payload, where a later entry replaces an
/// earlier one of the same name.
pub open spec fn latest(es: Seq<EntryView>) -> Map<Seq<u8>, Seq<u8>>
    decreases es.len(),
{
    if es.len() == 0 {
        Map::empty()
    } else {
        latest(es.drop_last()).insert(es.last().0, es.last().1)
    }
}

} // verus!

verus! {

/// Prepending two parts in turn is prepending them joined.
pub proof fn lemma_prepend_push(front: Seq<EntryView>, e: EntryView, r: Result<Seq<EntryView>, ErrorKind>)
    ensures
        prepend(front, prepend(seq![e], r)) == prepend(front.push(e), r),
{
    if let Ok(rest) = r {
        assert(front + (seq![e] + rest) =~= front.push(e) + rest);
    }
}

/// The view of a list of owned entries.
pub open spec fn entries_view(v: Seq<(Vec<u8>, Vec<u8>)>) -> Seq<EntryView> {
    v.map_values(|e: (Vec<u8>, Vec<u8>)| (e.0@, e.1@))
}

} // verus!
