use vstd::prelude::*;
use crate::error::ErrorKind;
use crate::format::{
    COLON, EntryView, colon_offset, container, decimal, digits_value, entries_bytes, entry_bytes,
    is_digit, latest, lemma_prepend_push, magic, parse_container, parse_entries, prepend,
    read_container, read_entries, valid_length, valid_name, valid_names,
};
use crate::codec::is_png;
use crate::reader::all_png;

verus! {

/// Every payload's length fits in `usize`.
pub open spec fn lengths_fit(es: Seq<EntryView>) -> bool {
    forall|i: int| 0 <= i < es.len() ==> (#[trigger] es[i]).1.len() <= usize::MAX
}

/// The bytes that open an entry: `<name>:<digits>:`.
pub open spec fn header(name: Seq<u8>, digits: Seq<u8>) -> Seq<u8> {
    name + seq![COLON] + digits + seq![COLON]
}

/// The decimal form of a length is a valid length field worth that length.
pub proof fn lemma_decimal(n: nat)
    ensures
        decimal(n).len() > 0,
        forall|i: int| 0 <= i < decimal(n).len() ==> is_digit(#[trigger] decimal(n)[i]),
        digits_value(decimal(n)) == n,
        n <= usize::MAX ==> valid_length(decimal(n)),
    decreases n,
{
    let d = decimal(n);
    if n < 10 {
        assert(d.drop_last() =~= Seq::<u8>::empty());
        assert(d.last() == (48 + n) as u8);
        assert(digits_value(d) == digits_value(d.drop_last()) * 10 + (d.last() - 48) as nat);
    } else {
        lemma_decimal(n / 10);
        assert(d.drop_last() =~= decimal(n / 10));
        assert(d.last() == (48 + n % 10) as u8);
        assert(digits_value(d) == digits_value(d.drop_last()) * 10 + (d.last() - 48) as nat);
        assert((n / 10) * 10 + n % 10 == n);
    }
}

proof fn lemma_colon_offset(s: Seq<u8>, from: int, j: int)
    requires
        0 <= from <= j <= s.len(),
        forall|k: int| from <= k < j ==> s[k] != COLON,
        j == s.len() || s[j] == COLON,
    ensures
        colon_offset(s, from) == j - from,
    decreases j - from,
{
    if from < j {
        lemma_colon_offset(s, from + 1, j);
    }
}

/// How the reader goes on from an intact entry header at `p`.
proof fn lemma_parse_header(s: Seq<u8>, p: int, name: Seq<u8>, d: Seq<u8>)
    requires
        0 <= p,
        p + header(name, d).len() <= s.len(),
        s.subrange(p, p + header(name, d).len()) == header(name, d),
        valid_name(name),
        valid_length(d),
    ensures
        ({
            let body = p + header(name, d).len();
            let n = digits_value(d);
            parse_entries(s, p) == if body + n > s.len() {
                Err::<Seq<EntryView>, ErrorKind>(ErrorKind::TruncatedPayload)
            } else {
                prepend(seq![(name, s.subrange(body, body + n))], parse_entries(s, body + n))
            }
        }),
        ({
            let body = p + header(name, d).len();
            let n = digits_value(d);
            read_entries(s, p) == if body + n > s.len() {
                Err::<Seq<EntryView>, ErrorKind>(ErrorKind::TruncatedPayload)
            } else if !is_png(s.subrange(body, body + n)) {
                Err::<Seq<EntryView>, ErrorKind>(ErrorKind::InvalidPayload)
            } else {
                prepend(seq![(name, s.subrange(body, body + n))], read_entries(s, body + n))
            }
        }),
{
    let hd = header(name, d);
    let name_end = p + name.len();
    let size_end = name_end + 1 + d.len();
    assert forall|k: int| p <= k < name_end implies s[k] != COLON by {
        assert(s[k] == hd[k - p]);
        assert(hd[k - p] == name[k - p]);
        if name[k - p] == COLON {
            assert(name.contains(COLON));
        }
    }
    assert(s[name_end] == hd[name.len() as int]);
    lemma_colon_offset(s, p, name_end);
    assert forall|k: int| name_end + 1 <= k < size_end implies s[k] != COLON by {
        assert(s[k] == hd[k - p]);
        assert(hd[k - p] == d[k - name_end - 1]);
        assert(is_digit(d[k - name_end - 1]));
    }
    assert(s[size_end] == hd[size_end - p]);
    lemma_colon_offset(s, name_end + 1, size_end);
    assert(s.subrange(name_end + 1, size_end) =~= d) by {
        assert forall|k: int| 0 <= k < d.len() implies s.subrange(name_end + 1, size_end)[k]
            == d[k] by {
            assert(s[name_end + 1 + k] == hd[name.len() + 1 + k]);
        }
    }
    assert(s.subrange(p, name_end) =~= name) by {
        assert forall|k: int| 0 <= k < name.len() implies s.subrange(p, name_end)[k]
            == name[k] by {
            assert(s[p + k] == hd[k]);
        }
    }
}

/// The reader takes an intact entry at `p` as it was written.
proof fn lemma_parse_entry(s: Seq<u8>, p: int, e: EntryView)
    requires
        0 <= p,
        p + entry_bytes(e).len() <= s.len(),
        s.subrange(p, p + entry_bytes(e).len()) == entry_bytes(e),
        valid_name(e.0),
        e.1.len() <= usize::MAX,
    ensures
        parse_entries(s, p) == prepend(seq![e], parse_entries(s, p + entry_bytes(e).len())),
        read_entries(s, p) == if is_png(e.1) {
            prepend(seq![e], read_entries(s, p + entry_bytes(e).len()))
        } else {
            Err::<Seq<EntryView>, ErrorKind>(ErrorKind::InvalidPayload)
        },
{
    lemma_decimal(e.1.len());
    let hd = header(e.0, decimal(e.1.len()));
    let eb = entry_bytes(e);
    assert(eb =~= hd + e.1);
    assert(s.subrange(p, p + hd.len()) =~= hd) by {
        assert forall|k: int| 0 <= k < hd.len() implies s.subrange(p, p + hd.len())[k] == hd[k] by {
            assert(s[p + k] == eb[k]);
        }
    }
    lemma_parse_header(s, p, e.0, decimal(e.1.len()));
    let body = p + hd.len();
    assert(s.subrange(body, body + e.1.len()) =~= e.1) by {
        assert forall|k: int| 0 <= k < e.1.len() implies s.subrange(body, body + e.1.len())[k]
            == e.1[k] by {
            assert(s[body + k] == eb[hd.len() + k]);
        }
    }
}

/// The reader takes intact entries at `p` as they were written.
proof fn lemma_parse_entries(s: Seq<u8>, p: int, es: Seq<EntryView>)
    requires
        0 <= p,
        p + entries_bytes(es).len() <= s.len(),
        s.subrange(p, p + entries_bytes(es).len()) == entries_bytes(es),
        valid_names(es),
        lengths_fit(es),
    ensures
        parse_entries(s, p) == prepend(es, parse_entries(s, p + entries_bytes(es).len())),
        all_png(es) ==> read_entries(s, p) == prepend(es, read_entries(s, p + entries_bytes(es).len())),
    decreases es.len(),
{
    if es.len() == 0 {
        if let Ok(rest) = parse_entries(s, p) {
            assert(es + rest =~= rest);
        }
        if let Ok(rest) = read_entries(s, p) {
            assert(es + rest =~= rest);
        }
    } else {
        let init = es.drop_last();
        let last = es.last();
        let bi = entries_bytes(init);
        let be = entry_bytes(last);
        let all = entries_bytes(es);
        assert(all == bi + be);
        let q = p + bi.len();
        assert(s.subrange(p, q) =~= bi) by {
            assert forall|k: int| 0 <= k < bi.len() implies s.subrange(p, q)[k] == bi[k] by {
                assert(s[p + k] == all[k]);
            }
        }
        assert(s.subrange(q, q + be.len()) =~= be) by {
            assert forall|k: int| 0 <= k < be.len() implies s.subrange(q, q + be.len())[k]
                == be[k] by {
                assert(s[q + k] == all[bi.len() + k]);
            }
        }
        assert(valid_names(init) && lengths_fit(init)) by {
            assert forall|i: int| 0 <= i < init.len() implies valid_name(#[trigger] init[i].0)
                && init[i].1.len() <= usize::MAX by {
                assert(init[i] == es[i]);
            }
        }
        assert(valid_name(last.0) && last.1.len() <= usize::MAX) by {
            assert(last == es[es.len() - 1]);
        }
        lemma_parse_entries(s, p, init);
        lemma_parse_entry(s, q, last);
        lemma_prepend_push(init, last, parse_entries(s, q + be.len()));
        lemma_prepend_push(init, last, read_entries(s, q + be.len()));
        assert(init.push(last) =~= es);
        if all_png(es) {
            assert(all_png(init)) by {
                assert forall|i: int| 0 <= i < init.len() implies is_png(#[trigger] init[i].1) by {
                    assert(init[i] == es[i]);
                }
            }
            assert(is_png(last.1));
        }
    }
}

/// Round trip: reading the container written from entries with
/// delimiter-free names gives back the same entries, in order, and so
/// does the decoding reader where every payload is PNG; the mapping made
/// of them has exactly their names.
pub proof fn lemma_round_trip(es: Seq<EntryView>)
    requires
        valid_names(es),
        lengths_fit(es),
    ensures
        parse_container(container(es)) == Ok::<Seq<EntryView>, ErrorKind>(es),
        all_png(es) ==> read_container(container(es)) == Ok::<Seq<EntryView>, ErrorKind>(es),
        forall|name: Seq<u8>|
            #[trigger] latest(es).contains_key(name) <==> exists|i: int|
                0 <= i < es.len() && (#[trigger] es[i]).0 == name,
{
    assert forall|name: Seq<u8>|
        #[trigger] latest(es).contains_key(name) <==> exists|i: int|
            0 <= i < es.len() && (#[trigger] es[i]).0 == name by {
        lemma_latest_names(es, name);
    }
    let s = container(es);
    assert(s.subrange(0, 4) =~= magic());
    assert(s.subrange(4, 4 + entries_bytes(es).len() as int) =~= entries_bytes(es));
    lemma_parse_entries(s, 4, es);
    assert(es + Seq::<EntryView>::empty() =~= es);
}

/// A stream that does not open with `SFA;` is refused: with
/// `TruncatedMagic` when it is shorter than four bytes, else with
/// `InvalidMagic`; never with entries.
pub proof fn lemma_magic_enforced(s: Seq<u8>)
    requires
        !(s.len() >= 4 && s.subrange(0, 4) == magic()),
    ensures
        s.len() < 4 ==> parse_container(s) == Err::<Seq<EntryView>, ErrorKind>(
            ErrorKind::TruncatedMagic,
        ),
        s.len() >= 4 ==> parse_container(s) == Err::<Seq<EntryView>, ErrorKind>(
            ErrorKind::InvalidMagic,
        ),
        read_container(s) == parse_container(s),
{
}

/// An entry whose declared length (any valid length field, leading zeros
/// too) exceeds the bytes that remain after its header makes the whole
/// container fail with `TruncatedPayload`.
pub proof fn lemma_declared_length_too_large(
    es: Seq<EntryView>,
    name: Seq<u8>,
    d: Seq<u8>,
    tail: Seq<u8>,
)
    requires
        valid_names(es),
        lengths_fit(es),
        valid_name(name),
        valid_length(d),
        tail.len() < digits_value(d),
    ensures
        parse_container(container(es) + header(name, d) + tail) == Err::<
            Seq<EntryView>,
            ErrorKind,
        >(ErrorKind::TruncatedPayload),
        all_png(es) ==> read_container(container(es) + header(name, d) + tail) == Err::<
            Seq<EntryView>,
            ErrorKind,
        >(ErrorKind::TruncatedPayload),
{
    let eb = entries_bytes(es);
    let hd = header(name, d);
    let s = container(es) + hd + tail;
    assert(s.subrange(0, 4) =~= magic());
    assert(s.subrange(4, 4 + eb.len() as int) =~= eb);
    lemma_parse_entries(s, 4, es);
    let q: int = 4 + eb.len() as int;
    assert(s.subrange(q, q + hd.len()) =~= hd);
    lemma_parse_header(s, q, name, d);
}

/// Cutting 0 < k < L bytes off a container whose last payload has L bytes
/// makes it fail with `TruncatedPayload`; for the decoding reader too,
/// where the payloads before the last are PNG.
pub proof fn lemma_truncated_last_payload(es: Seq<EntryView>, k: nat)
    requires
        valid_names(es),
        lengths_fit(es),
        es.len() > 0,
        0 < k < es.last().1.len(),
    ensures
        parse_container(container(es).subrange(0, container(es).len() - k)) == Err::<
            Seq<EntryView>,
            ErrorKind,
        >(ErrorKind::TruncatedPayload),
        all_png(es.drop_last()) ==> read_container(
            container(es).subrange(0, container(es).len() - k),
        ) == Err::<Seq<EntryView>, ErrorKind>(ErrorKind::TruncatedPayload),
{
    let init = es.drop_last();
    let last = es.last();
    let n = last.1.len();
    let tail = last.1.subrange(0, n - k);
    assert(valid_names(init) && lengths_fit(init)) by {
        assert forall|i: int| 0 <= i < init.len() implies valid_name(#[trigger] init[i].0)
            && init[i].1.len() <= usize::MAX by {
            assert(init[i] == es[i]);
        }
    }
    assert(valid_name(last.0) && last.1.len() <= usize::MAX) by {
        assert(last == es[es.len() - 1]);
    }
    lemma_decimal(n);
    assert(entry_bytes(last) =~= header(last.0, decimal(n)) + last.1);
    assert(container(es).subrange(0, container(es).len() - k) =~= container(init) + header(
        last.0,
        decimal(n),
    ) + tail);
    lemma_declared_length_too_large(init, last.0, decimal(n), tail);
}

/// A payload that is not PNG makes the decoding reader fail with
/// `InvalidPayload` once the entry is intact, whatever bytes follow it.
pub proof fn lemma_bad_payload_first(
    es: Seq<EntryView>,
    name: Seq<u8>,
    payload: Seq<u8>,
    tail: Seq<u8>,
)
    requires
        valid_names(es),
        lengths_fit(es),
        all_png(es),
        valid_name(name),
        payload.len() <= usize::MAX,
        !is_png(payload),
    ensures
        read_container(container(es) + entry_bytes((name, payload)) + tail) == Err::<
            Seq<EntryView>,
            ErrorKind,
        >(ErrorKind::InvalidPayload),
{
    let eb = entries_bytes(es);
    let e = (name, payload);
    let be = entry_bytes(e);
    let s = container(es) + be + tail;
    assert(s.subrange(0, 4) =~= magic());
    assert(s.subrange(4, 4 + eb.len() as int) =~= eb);
    lemma_parse_entries(s, 4, es);
    let q: int = 4 + eb.len() as int;
    assert(s.subrange(q, q + be.len()) =~= be);
    lemma_parse_entry(s, q, e);
}

/// Last one wins: the mapping gives a name the payload of the last entry
/// that bears it.
pub proof fn lemma_last_wins(es: Seq<EntryView>, i: int)
    requires
        0 <= i < es.len(),
        forall|j: int| i < j < es.len() ==> (#[trigger] es[j]).0 != es[i].0,
    ensures
        latest(es).contains_key(es[i].0),
        latest(es)[es[i].0] == es[i].1,
    decreases es.len(),
{
    if i < es.len() - 1 {
        let init = es.drop_last();
        assert(init[i] == es[i]);
        assert forall|j: int| i < j < init.len() implies (#[trigger] init[j]).0 != init[i].0 by {
            assert(init[j] == es[j]);
        }
        lemma_last_wins(init, i);
        assert(es.last() == es[es.len() - 1]);
    }
}

/// The mapping holds exactly the names of the entries.
pub proof fn lemma_latest_names(es: Seq<EntryView>, name: Seq<u8>)
    ensures
        latest(es).contains_key(name) <==> exists|i: int|
            0 <= i < es.len() && (#[trigger] es[i]).0 == name,
    decreases es.len(),
{
    if es.len() > 0 {
        let init = es.drop_last();
        lemma_latest_names(init, name);
        if exists|i: int| 0 <= i < init.len() && (#[trigger] init[i]).0 == name {
            let i = choose|i: int| 0 <= i < init.len() && (#[trigger] init[i]).0 == name;
            assert(es[i] == init[i]);
        }
        if exists|i: int| 0 <= i < es.len() && (#[trigger] es[i]).0 == name {
            let i = choose|i: int| 0 <= i < es.len() && (#[trigger] es[i]).0 == name;
            if i < init.len() {
                assert(es[i] == init[i]);
            }
        }
        assert(es.last() == es[es.len() - 1]);
    }
}

/// The empty container is the marker alone, and reads back as no entries
/// and an empty mapping.
pub proof fn lemma_empty_container()
    ensures
        container(Seq::empty()) == magic(),
        parse_container(magic()) == Ok::<Seq<EntryView>, ErrorKind>(Seq::empty()),
        read_container(magic()) == Ok::<Seq<EntryView>, ErrorKind>(Seq::empty()),
        latest(Seq::empty()) == Map::<Seq<u8>, Seq<u8>>::empty(),
{
    assert(container(Seq::empty()) =~= magic());
    assert(magic().subrange(0, 4) =~= magic());
}

} // verus!
