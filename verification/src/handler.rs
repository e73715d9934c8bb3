//! The dispatch step: one decoded frame against the store, one response
//! back.
//!
//! [`handle_command`] is the computation at the heart of each connection's
//! loop: decode the frame, apply the command to the shared mapping, and
//! build the response to write back.  A frame that fails to decode turns
//! into an internal-error response on the same connection; it never crashes
//! the handler and never touches the store.

use vstd::prelude::*;

verus! {

use vstd::seq_lib::*;
use vstd::string::StrSliceExecFns;
use vstd::utf8::encode_utf8;

use crate::kv_store::KvStore;
use crate::protocol::{
    decode, spec_decode, Command, CommandModel, CommandResponse, DecodeError, ResponseModel, SPACE,
};

/// The mapping after one command: SET inserts or overwrites, DELETE
/// removes, everything else leaves the mapping as it is.
pub open spec fn spec_apply(
    m: Map<Seq<char>, Seq<char>>,
    c: CommandModel,
) -> Map<Seq<char>, Seq<char>> {
    match c {
        CommandModel::Put(k, v) => m.insert(k, v),
        CommandModel::Delete(k) => m.remove(k),
        _ => m,
    }
}

/// The mapping after one frame: what its command does, or nothing at all
/// when the frame does not decode.
pub open spec fn spec_store_after(
    m: Map<Seq<char>, Seq<char>>,
    frame: Seq<u8>,
) -> Map<Seq<char>, Seq<char>> {
    match spec_decode(frame) {
        Ok(c) => spec_apply(m, c),
        Err(_) => m,
    }
}

/// The payload of the internal-error response that a decode fault earns.
pub open spec fn spec_error_message(e: DecodeError) -> Seq<u8> {
    match e {
        DecodeError::InvalidCommand => encode_utf8("invalid command"@),
        DecodeError::MalformedFrame => encode_utf8("malformed frame"@),
    }
}

/// The KEYS payload: every key as UTF-8 bytes, the keys separated by single
/// spaces, in the order of the given sequence.
pub open spec fn spec_join_keys(ks: Seq<Seq<char>>) -> Seq<u8>
    decreases ks.len(),
{
    if ks.len() == 0 {
        Seq::empty()
    } else if ks.len() == 1 {
        encode_utf8(ks[0])
    } else {
        spec_join_keys(ks.drop_last()) + seq![SPACE] + encode_utf8(ks.last())
    }
}

/// What the response to a decoded command must be, over the mapping the
/// command was applied to.  Only the order of the KEYS listing is left
/// open, as the store promises none.
pub open spec fn spec_response_ok(
    m: Map<Seq<char>, Seq<char>>,
    c: CommandModel,
    resp: ResponseModel,
) -> bool {
    match c {
        CommandModel::Get(k) => resp == if m.contains_key(k) {
            ResponseModel::Success(encode_utf8(m[k]))
        } else {
            ResponseModel::NotFound
        },
        CommandModel::Put(k, v) => resp == ResponseModel::Success(Seq::<u8>::empty()),
        CommandModel::Delete(k) => resp == if m.contains_key(k) {
            ResponseModel::Success(encode_utf8(m[k]))
        } else {
            ResponseModel::NotFound
        },
        CommandModel::Exists(k) => resp == ResponseModel::Success(
            if m.contains_key(k) {
                encode_utf8("1"@)
            } else {
                encode_utf8("0"@)
            },
        ),
        CommandModel::Keys => exists|ks: Seq<Seq<char>>|
            {
                &&& ks.no_duplicates()
                &&& ks.to_set() == m.dom()
                &&& resp == ResponseModel::Success(spec_join_keys(ks))
            },
    }
}

/// What the response to one frame must be, against the mapping the frame
/// found: the command's response, or the internal-error response of the
/// decode fault.
pub open spec fn spec_response_matches(
    m: Map<Seq<char>, Seq<char>>,
    frame: Seq<u8>,
    resp: ResponseModel,
) -> bool {
    match spec_decode(frame) {
        Ok(c) => spec_response_ok(m, c, resp),
        Err(e) => resp == ResponseModel::InternalError(spec_error_message(e)),
    }
}

/// Joins the keys with single spaces into the KEYS response payload.
fn join_keys(ks: &Vec<String>) -> (r: Vec<u8>)
    ensures
        r@ == spec_join_keys(ks.deep_view()),
{
    let n = ks.len();
    let mut out: Vec<u8> = Vec::new();
    let mut i: usize = 0;
    while i < n
        invariant
            n == ks@.len(),
            i <= n,
            out@ == spec_join_keys(ks.deep_view().take(i as int)),
        decreases n - i,
    {
        let ghost prefix = ks.deep_view().take(i as int);
        let ghost next = ks.deep_view().take(i + 1 as int);
        if i > 0 {
            out.push(SPACE);
        }
        let mut tail = ks[i].as_str().as_bytes_vec();
        out.append(&mut tail);
        proof {
            assert(next.drop_last() =~= prefix);
            assert(next.last() == ks.deep_view()[i as int]);
            assert(ks.deep_view()[i as int] == ks@[i as int]@);
            if i == 0 {
                assert(out@ =~= encode_utf8(next[0]));
            } else {
                assert(out@ =~= spec_join_keys(prefix) + seq![SPACE] + encode_utf8(next.last()));
            }
        }
        i += 1;
    }
    proof {
        assert(ks.deep_view().take(n as int) =~= ks.deep_view());
    }
    out
}

/// Builds the internal-error response for a frame that failed to decode.
fn error_response(e: DecodeError) -> (r: CommandResponse)
    ensures
        r@ == ResponseModel::InternalError(spec_error_message(e)),
{
    match e {
        DecodeError::InvalidCommand => CommandResponse::InternalError(
            "invalid command".as_bytes_vec(),
        ),
        DecodeError::MalformedFrame => CommandResponse::InternalError(
            "malformed frame".as_bytes_vec(),
        ),
    }
}

/// Handles one frame, the first `size` bytes of one read: decodes it,
/// applies the command to the store, and returns the response to write
/// back.  A frame that does not decode leaves the store untouched and earns
/// an internal-error response; the handler itself never fails.
pub fn handle_command(store: &mut KvStore, buffer: &[u8], size: usize) -> (r: CommandResponse)
    requires
        old(store).wf(),
        1 <= size <= buffer@.len(),
    ensures
        final(store).wf(),
        final(store)@ == spec_store_after(old(store)@, buffer@.take(size as int)),
        spec_response_matches(old(store)@, buffer@.take(size as int), r@),
{
    match decode(buffer, size) {
        Err(e) => error_response(e),
        Ok(Command::Get(key)) => match store.get(key) {
            Some(value) => CommandResponse::Success(value.as_str().as_bytes_vec()),
            None => CommandResponse::NotFound,
        },
        Ok(Command::Put(key, value)) => {
            store.set(key, value);
            CommandResponse::Success(Vec::new())
        },
        Ok(Command::Delete(key)) => match store.delete(key) {
            Some(value) => CommandResponse::Success(value.as_str().as_bytes_vec()),
            None => CommandResponse::NotFound,
        },
        Ok(Command::Exists(key)) => {
            if store.key_exists(key) {
                CommandResponse::Success("1".as_bytes_vec())
            } else {
                CommandResponse::Success("0".as_bytes_vec())
            }
        },
        Ok(Command::Keys) => {
            let ks = store.keys();
            let payload = join_keys(&ks);
            proof {
                let ghost w = ks.deep_view();
                assert(w.no_duplicates() && w.to_set() == store@.dom() && ResponseModel::Success(
                    payload@,
                ) == ResponseModel::Success(spec_join_keys(w)));
            }
            CommandResponse::Success(payload)
        },
    }
}

/// The mapping after a run of SET operations, applied one at a time in the
/// order of the sequence — the serialized order the store's lock imposes on
/// racing connections.
pub open spec fn spec_apply_sets(
    m: Map<Seq<char>, Seq<char>>,
    ps: Seq<(Seq<char>, Seq<char>)>,
) -> Map<Seq<char>, Seq<char>>
    decreases ps.len(),
{
    if ps.len() == 0 {
        m
    } else {
        spec_apply_sets(m.insert(ps[0].0, ps[0].1), ps.drop_first())
    }
}

/// A run of SET operations never touches a key that none of them carries.
proof fn lemma_apply_sets_frame(
    m: Map<Seq<char>, Seq<char>>,
    ps: Seq<(Seq<char>, Seq<char>)>,
    k: Seq<char>,
)
    requires
        forall|i: int| 0 <= i < ps.len() ==> ps[i].0 != k,
    ensures
        spec_apply_sets(m, ps).contains_key(k) == m.contains_key(k),
        m.contains_key(k) ==> spec_apply_sets(m, ps)[k] == m[k],
    decreases ps.len(),
{
    if ps.len() > 0 {
        assert(forall|i: int|
            0 <= i < ps.drop_first().len() ==> #[trigger] ps.drop_first()[i].0 == ps[i + 1].0);
        lemma_apply_sets_frame(m.insert(ps[0].0, ps[0].1), ps.drop_first(), k);
    }
}

/// Concurrent SET operations on pairwise distinct keys all persist: after
/// they run in any serialized order, the mapping holds every written value
/// under its key.
pub proof fn lemma_sets_on_distinct_keys_persist(
    m: Map<Seq<char>, Seq<char>>,
    ps: Seq<(Seq<char>, Seq<char>)>,
)
    requires
        forall|i: int, j: int| 0 <= i < j < ps.len() ==> ps[i].0 != ps[j].0,
    ensures
        forall|i: int|
            0 <= i < ps.len() ==> #[trigger] spec_apply_sets(m, ps).contains_key(ps[i].0)
                && spec_apply_sets(m, ps)[ps[i].0] == ps[i].1,
    decreases ps.len(),
{
    if ps.len() > 0 {
        let m1 = m.insert(ps[0].0, ps[0].1);
        let rest = ps.drop_first();
        assert(forall|i: int| 0 <= i < rest.len() ==> #[trigger] rest[i].0 == ps[i + 1].0);
        lemma_sets_on_distinct_keys_persist(m1, rest);
        lemma_apply_sets_frame(m1, rest, ps[0].0);
        assert forall|i: int|
            0 <= i < ps.len() implies #[trigger] spec_apply_sets(m, ps).contains_key(ps[i].0)
            && spec_apply_sets(m, ps)[ps[i].0] == ps[i].1 by {
            if i > 0 {
                assert(rest[i - 1] == ps[i]);
            }
        }
    }
}

/// Concurrent SET operations on one key leave exactly one of the attempted
/// values: whichever the serialized order ran last.
pub proof fn lemma_sets_on_same_key_last_wins(
    m: Map<Seq<char>, Seq<char>>,
    ps: Seq<(Seq<char>, Seq<char>)>,
    k: Seq<char>,
)
    requires
        ps.len() > 0,
        forall|i: int| 0 <= i < ps.len() ==> #[trigger] ps[i].0 == k,
    ensures
        spec_apply_sets(m, ps).contains_key(k),
        spec_apply_sets(m, ps)[k] == ps.last().1,
    decreases ps.len(),
{
    let m1 = m.insert(ps[0].0, ps[0].1);
    let rest = ps.drop_first();
    if ps.len() == 1 {
        assert(ps[0].0 == k);
        assert(ps.last() == ps[0]);
        assert(rest.len() == 0);
        assert(spec_apply_sets(m1, rest) == m1);
        assert(spec_apply_sets(m, ps) == spec_apply_sets(m1, rest));
    } else {
        assert(forall|i: int| 0 <= i < rest.len() ==> #[trigger] rest[i].0 == ps[i + 1].0);
        lemma_sets_on_same_key_last_wins(m1, rest, k);
        assert(rest.last() == ps.last());
    }
}

/// After SET stores `v` under `k`, GET on `k` finds exactly `v`, whatever
/// the mapping held before.
pub proof fn lemma_set_then_get(m: Map<Seq<char>, Seq<char>>, k: Seq<char>, v: Seq<char>)
    ensures
        m.insert(k, v).contains_key(k),
        m.insert(k, v)[k] == v,
{
}

/// After DELETE removes `k`, GET on `k` finds nothing, and a second DELETE
/// of `k` removes nothing further.
pub proof fn lemma_delete_then_get(m: Map<Seq<char>, Seq<char>>, k: Seq<char>)
    ensures
        !m.remove(k).contains_key(k),
        m.remove(k).remove(k) == m.remove(k),
{
    assert(m.remove(k).remove(k) =~= m.remove(k));
}

} // verus!
