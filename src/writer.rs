use vstd::prelude::*;
use crate::codec::{is_image, reencode_png};
use crate::error::ErrorKind;
use crate::format::{
    COLON, EntryView, container, decimal, entries_bytes, entries_view, entry_bytes, magic,
    valid_name, valid_names,
};

verus! {

/// Appends the decimal digits of `n`.
pub fn push_decimal(out: &mut Vec<u8>, n: usize)
    ensures
        final(out)@ == old(out)@ + decimal(n as nat),
    decreases n,
{
    if n >= 10 {
        push_decimal(out, n / 10);
    }
    out.push(48u8 + (n % 10) as u8);
    assert(final(out)@ =~= old(out)@ + decimal(n as nat));
}

/// Appends every byte of `src`.
fn push_all(out: &mut Vec<u8>, src: &Vec<u8>)
    ensures
        final(out)@ == old(out)@ + src@,
{
    let ghost start = out@;
    let mut i: usize = 0;
    while i < src.len()
        invariant
            i <= src.len(),
            out@ == start + src@.subrange(0, i as int),
        decreases src.len() - i,
    {
        out.push(src[i]);
        i += 1;
        assert(out@ =~= start + src@.subrange(0, i as int));
    }
    assert(src@.subrange(0, i as int) =~= src@);
}

/// Appends the four marker bytes `SFA;`.
pub fn push_magic(out: &mut Vec<u8>)
    ensures
        final(out)@ == old(out)@ + magic(),
{
    out.push(83u8);
    out.push(70u8);
    out.push(65u8);
    out.push(59u8);
    assert(final(out)@ =~= old(out)@ + magic());
}

/// Appends one entry: its name, a delimiter, the payload's length in
/// decimal, a delimiter, then the payload bytes.
pub fn push_entry(out: &mut Vec<u8>, name: &Vec<u8>, payload: &Vec<u8>)
    ensures
        final(out)@ == old(out)@ + entry_bytes((name@, payload@)),
{
    let ghost start = out@;
    push_all(out, name);
    out.push(COLON);
    push_decimal(out, payload.len());
    out.push(COLON);
    push_all(out, payload);
    assert(out@ =~= start + entry_bytes((name@, payload@)));
}

/// Whether `name` holds the delimiter.
pub fn has_colon(name: &Vec<u8>) -> (r: bool)
    ensures
        r == name@.contains(COLON),
{
    let mut i: usize = 0;
    while i < name.len()
        invariant
            i <= name.len(),
            forall|k: int| 0 <= k < i ==> name@[k] != COLON,
        decreases name.len() - i,
    {
        if name[i] == COLON {
            assert(name@[i as int] == COLON);
            return true;
        }
        i += 1;
    }
    false
}

/// Whether every name can be written.
pub fn check_names(entries: &Vec<(Vec<u8>, Vec<u8>)>) -> (r: bool)
    ensures
        r == valid_names(entries_view(entries@)),
{
    let mut i: usize = 0;
    while i < entries.len()
        invariant
            i <= entries.len(),
            forall|k: int| 0 <= k < i ==> valid_name(#[trigger] entries@[k].0@),
        decreases entries.len() - i,
    {
        if has_colon(&entries[i].0) {
            assert(!valid_name(entries_view(entries@)[i as int].0));
            return false;
        }
        i += 1;
    }
    assert(valid_names(entries_view(entries@)));
    true
}

/// The entries made of the sources' names and the given payloads.
pub open spec fn named(sources: Seq<(Vec<u8>, Vec<u8>)>, payloads: Seq<Seq<u8>>) -> Seq<EntryView> {
    Seq::new(sources.len(), |i: int| (sources[i].0@, payloads[i]))
}

/// What a failure at `source` may be: `SourceUnreadable` exactly when it
/// is not an image, else `EncodeFailure`.
pub open spec fn source_failure(source: Seq<u8>, k: ErrorKind) -> bool {
    &&& k == ErrorKind::SourceUnreadable || k == ErrorKind::EncodeFailure
    &&& k == ErrorKind::SourceUnreadable <==> !is_image(source)
}

/// The bytes of one entry for a source given as image file bytes: the
/// source is decoded and written again as PNG, then framed under `name`.
/// A source that is not an image fails with `SourceUnreadable`; one whose
/// image the PNG encoder refuses, with `EncodeFailure`.
pub fn encode_source(name: &Vec<u8>, source: &Vec<u8>) -> (r: Result<Vec<u8>, ErrorKind>)
    ensures
        !valid_name(name@) ==> r == Err::<Vec<u8>, ErrorKind>(ErrorKind::InvalidName),
        valid_name(name@) ==> match r {
            Ok(out) => is_image(source@) && exists|p: Seq<u8>|
                out@ == #[trigger] entry_bytes((name@, p)),
            Err(k) => source_failure(source@, k),
        },
        valid_name(name@) && !is_image(source@) ==> r == Err::<Vec<u8>, ErrorKind>(
            ErrorKind::SourceUnreadable,
        ),
{
    if has_colon(name) {
        return Err(ErrorKind::InvalidName);
    }
    let png = match reencode_png(source) {
        Ok(p) => p,
        Err(k) => {
            return Err(k);
        },
    };
    let mut out: Vec<u8> = Vec::new();
    push_entry(&mut out, name, &png);
    assert(out@ =~= entry_bytes((name@, png@)));
    Ok(out)
}

/// Writes a container from sources given as (name, image file bytes): each
/// source is decoded, written again as PNG, and framed under its name, in
/// order. Fails with `InvalidName` before any decoding when a name holds
/// the delimiter; else at the first source that fails, with
/// `SourceUnreadable` where it is not an image and `EncodeFailure` where
/// the PNG encoder refuses its image.
pub fn encode(sources: &Vec<(Vec<u8>, Vec<u8>)>) -> (r: Result<Vec<u8>, ErrorKind>)
    ensures
        !valid_names(entries_view(sources@)) ==> r == Err::<Vec<u8>, ErrorKind>(
            ErrorKind::InvalidName,
        ),
        valid_names(entries_view(sources@)) ==> match r {
            Ok(out) => (forall|i: int| 0 <= i < sources@.len() ==> is_image(#[trigger] sources@[i].1@))
                && exists|payloads: Seq<Seq<u8>>|
                payloads.len() == sources@.len() && out@ == container(
                    #[trigger] named(sources@, payloads),
                ),
            Err(k) => exists|f: int|
                0 <= f < sources@.len() && (forall|j: int|
                    0 <= j < f ==> is_image(#[trigger] sources@[j].1@)) && source_failure(
                    (#[trigger] sources@[f]).1@,
                    k,
                ),
        },
        sources@.len() == 0 ==> (r matches Ok(out) && out@ == magic()),
{
    if !check_names(sources) {
        return Err(ErrorKind::InvalidName);
    }
    let mut out: Vec<u8> = Vec::new();
    push_magic(&mut out);
    let ghost mut payloads: Seq<Seq<u8>> = Seq::empty();
    let mut j: usize = 0;
    assert(named(sources@.subrange(0, 0), payloads) =~= Seq::<EntryView>::empty());
    while j < sources.len()
        invariant
            j <= sources.len(),
            payloads.len() == j,
            valid_names(entries_view(sources@)),
            forall|k: int| 0 <= k < j ==> is_image(#[trigger] sources@[k].1@),
            out@ == container(named(sources@.subrange(0, j as int), payloads)),
        decreases sources.len() - j,
    {
        let png = match reencode_png(&sources[j].1) {
            Ok(p) => p,
            Err(k) => {
                assert(source_failure(sources@[j as int].1@, k));
                return Err(k);
            },
        };
        push_entry(&mut out, &sources[j].0, &png);
        proof {
            let p2 = payloads.push(png@);
            let n2 = named(sources@.subrange(0, j as int + 1), p2);
            assert(n2.drop_last() =~= named(sources@.subrange(0, j as int), payloads));
            assert(out@ =~= container(n2));
            payloads = p2;
        }
        j += 1;
    }
    assert(sources@.subrange(0, j as int) =~= sources@);
    assert(named(sources@, payloads) =~= named(sources@.subrange(0, j as int), payloads));
    proof {
        if sources@.len() == 0 {
            assert(named(sources@, payloads) =~= Seq::<EntryView>::empty());
            assert(out@ =~= magic());
        }
    }
    Ok(out)
}

/// Frames already encoded payloads into a container. Fails, writing
/// nothing, when a name holds the delimiter.
pub fn encode_payloads(entries: &Vec<(Vec<u8>, Vec<u8>)>) -> (r: Result<Vec<u8>, ErrorKind>)
    ensures
        valid_names(entries_view(entries@)) ==> (r matches Ok(out) && out@ == container(
            entries_view(entries@),
        )),
        !valid_names(entries_view(entries@)) ==> r == Err::<Vec<u8>, ErrorKind>(
            ErrorKind::InvalidName,
        ),
{
    if !check_names(entries) {
        return Err(ErrorKind::InvalidName);
    }
    let mut out: Vec<u8> = Vec::new();
    push_magic(&mut out);
    let mut j: usize = 0;
    while j < entries.len()
        invariant
            j <= entries.len(),
            out@ == magic() + entries_bytes(entries_view(entries@.subrange(0, j as int))),
        decreases entries.len() - j,
    {
        proof {
            let es = entries_view(entries@.subrange(0, j as int + 1));
            assert(es.drop_last() =~= entries_view(entries@.subrange(0, j as int)));
        }
        push_entry(&mut out, &entries[j].0, &entries[j].1);
        j += 1;
    }
    assert(entries@.subrange(0, j as int) =~= entries@);
    Ok(out)
}

} // verus!
