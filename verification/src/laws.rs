//! What holds of a server along any sequence of commands.

use crate::command::{apply, canonical_set, classify, ok, Request, ServerModel};
use crate::decimal::{digits, lemma_digits_len, lemma_digits_value};
use crate::decode::{decode, Decoded};
use crate::frame::Frame;
use crate::role::Role;
use crate::store::live_part;
use crate::stream::lemma_round_trip;
use crate::text::{bytes_of, lemma_same_word_len, lower};
use vstd::prelude::*;

verus! {

/// A request and the instant at which it is run.
pub struct Op {
    pub request: Request,
    pub at: u64,
}

/// The server's state after the requests `ops`, run in order.
pub open spec fn run_all(m: ServerModel, ops: Seq<Op>) -> ServerModel
    decreases ops.len(),
{
    if ops.len() == 0 {
        m
    } else {
        apply(run_all(m, ops.drop_last()), ops.last().request, ops.last().at).state
    }
}

/// What the last of the requests `ops` does, run after the others.
pub open spec fn last_applied(m: ServerModel, ops: Seq<Op>) -> crate::command::Applied {
    apply(run_all(m, ops.drop_last()), ops.last().request, ops.last().at)
}

/// The byte strings that go to the replicas while `ops` are run, in order.
pub open spec fn propagated(m: ServerModel, ops: Seq<Op>) -> Seq<Seq<u8>>
    decreases ops.len(),
{
    if ops.len() == 0 {
        Seq::empty()
    } else {
        match last_applied(m, ops).propagate {
            Some(bytes) => propagated(m, ops.drop_last()).push(bytes),
            None => propagated(m, ops.drop_last()),
        }
    }
}

/// Every `SET` among `ops` is answered `+OK`: none is refused for a
/// deadline or an offset that would leave 64 bits.
pub open spec fn all_accepted(m: ServerModel, ops: Seq<Op>) -> bool
    decreases ops.len(),
{
    ops.len() == 0 || (all_accepted(m, ops.drop_last()) && (ops.last().request is SetKey
        ==> last_applied(m, ops).reply == ok()))
}

/// The value of the last `SET` of `key` among `ops`.
pub open spec fn last_written(ops: Seq<Op>, key: Seq<u8>) -> Option<Seq<u8>>
    decreases ops.len(),
{
    if ops.len() == 0 {
        None
    } else {
        match ops.last().request {
            Request::SetKey(k, v, _) => if k == key {
                Some(v)
            } else {
                last_written(ops.drop_last(), key)
            },
            _ => last_written(ops.drop_last(), key),
        }
    }
}

/// A `SET` without a time to live, or a `GET`.
pub open spec fn plain(r: Request) -> bool {
    match r {
        Request::SetKey(_, _, ttl) => ttl is None,
        Request::GetKey(_) => true,
        _ => false,
    }
}

/// The request writes `key`.
pub open spec fn writes(r: Request, key: Seq<u8>) -> bool {
    r matches Request::SetKey(k, _, _) && k == key
}

/// The form in which a `SET` request goes to the replicas.
pub open spec fn canonical(r: Request) -> Seq<u8> {
    match r {
        Request::SetKey(k, v, ttl) => canonical_set(k, v, ttl).wire(),
        _ => Seq::empty(),
    }
}

/// The value of the last `SET` of a key stands in the store, without a
/// deadline.
proof fn lemma_last_write_stays(m: ServerModel, ops: Seq<Op>, key: Seq<u8>, val: Seq<u8>)
    requires
        forall|i: int| 0 <= i < ops.len() ==> plain(#[trigger] ops[i].request),
        all_accepted(m, ops),
        last_written(ops, key) == Some(val),
    ensures
        run_all(m, ops).store.contains_key(key),
        run_all(m, ops).store[key].value == val,
        run_all(m, ops).store[key].expires_at is None,
    decreases ops.len(),
{
    if ops.len() > 0 {
        let before = ops.drop_last();
        let prev = run_all(m, before);
        assert(plain(ops[ops.len() - 1].request));
        assert forall|i: int| 0 <= i < before.len() implies plain(#[trigger] before[i].request) by {
            assert(before[i] == ops[i]);
        }
        match ops.last().request {
            Request::SetKey(k, v, ttl) => {
                if k != key {
                    lemma_last_write_stays(m, before, key, val);
                }
            },
            Request::GetKey(k) => {
                lemma_last_write_stays(m, before, key, val);
            },
            _ => {},
        }
    }
}

/// After any sequence of `SET`s without a time to live and `GET`s, in
/// which no `SET` was refused, a `GET` of a key gives the value of the
/// last `SET` of that key, at whatever instant it is asked.
pub proof fn lemma_get_after_set(
    m: ServerModel,
    ops: Seq<Op>,
    key: Seq<u8>,
    val: Seq<u8>,
    now: u64,
)
    requires
        forall|i: int| 0 <= i < ops.len() ==> plain(#[trigger] ops[i].request),
        all_accepted(m, ops),
        last_written(ops, key) == Some(val),
    ensures
        apply(run_all(m, ops), Request::GetKey(key), now).reply == Frame::Bulk(val),
{
    lemma_last_write_stays(m, ops, key, val);
}

/// While a key is not written, its entry keeps its deadline or goes.
proof fn lemma_deadline_stays(m: ServerModel, ops: Seq<Op>, key: Seq<u8>, limit: u64)
    requires
        forall|i: int| 0 <= i < ops.len() ==> !writes(#[trigger] ops[i].request, key),
        m.store.contains_key(key) ==> m.store[key].expires_at == Some(limit),
    ensures
        run_all(m, ops).store.contains_key(key) ==> run_all(m, ops).store[key].expires_at
            == Some(limit),
    decreases ops.len(),
{
    if ops.len() > 0 {
        let before = ops.drop_last();
        assert(!writes(ops[ops.len() - 1].request, key));
        assert forall|i: int| 0 <= i < before.len() implies !writes(
            #[trigger] before[i].request,
            key,
        ) by {
            assert(before[i] == ops[i]);
        }
        lemma_deadline_stays(m, before, key, limit);
    }
}

/// A key written with a time to live is absent at every instant after its
/// deadline, whatever was asked of the server in between, as long as the
/// key was not written again.
pub proof fn lemma_expired(
    m: ServerModel,
    key: Seq<u8>,
    val: Seq<u8>,
    ttl: u64,
    now: u64,
    ops: Seq<Op>,
    later: u64,
)
    requires
        apply(m, Request::SetKey(key, val, Some(ttl)), now).reply == ok(),
        forall|i: int| 0 <= i < ops.len() ==> !writes(#[trigger] ops[i].request, key),
        later > now + ttl,
    ensures
        apply(
            run_all(apply(m, Request::SetKey(key, val, Some(ttl)), now).state, ops),
            Request::GetKey(key),
            later,
        ).reply == Frame::NullBulk,
{
    let written = apply(m, Request::SetKey(key, val, Some(ttl)), now).state;
    lemma_deadline_stays(written, ops, key, (now + ttl) as u64);
}

/// No request changes the server's role.
proof fn lemma_role_stays(m: ServerModel, ops: Seq<Op>)
    ensures
        run_all(m, ops).role == m.role,
    decreases ops.len(),
{
    if ops.len() > 0 {
        lemma_role_stays(m, ops.drop_last());
    }
}

/// On a master, while `SET`s are run of which none is refused, what goes
/// to the replicas is the canonical form of each `SET`, in the order in
/// which they were run, and nothing else.
pub proof fn lemma_propagation(m: ServerModel, ops: Seq<Op>)
    requires
        m.role == Role::Master,
        forall|i: int| 0 <= i < ops.len() ==> #[trigger] ops[i].request is SetKey,
        all_accepted(m, ops),
    ensures
        propagated(m, ops).len() == ops.len(),
        forall|i: int|
            0 <= i < ops.len() ==> #[trigger] propagated(m, ops)[i] == canonical(ops[i].request),
    decreases ops.len(),
{
    if ops.len() > 0 {
        let before = ops.drop_last();
        assert(ops[ops.len() - 1].request is SetKey);
        assert forall|i: int| 0 <= i < before.len() implies #[trigger] before[i].request
            is SetKey by {
            assert(before[i] == ops[i]);
        }
        lemma_propagation(m, before);
        lemma_role_stays(m, before);
        assert forall|i: int| 0 <= i < ops.len() implies #[trigger] propagated(m, ops)[i]
            == canonical(ops[i].request) by {
            if i < before.len() {
                assert(before[i] == ops[i]);
                assert(propagated(m, before)[i] == canonical(before[i].request));
            }
        }
    }
}

/// Sweeping changes no answer: after the expired entries were removed at
/// `now`, a `GET` at any instant from `now` on is answered as it would
/// have been without the sweep.
pub proof fn lemma_sweep_changes_no_answer(m: ServerModel, key: Seq<u8>, now: u64, later: u64)
    requires
        now <= later,
    ensures
        apply(
            ServerModel { store: live_part(m.store, now), ..m },
            Request::GetKey(key),
            later,
        ).reply == apply(m, Request::GetKey(key), later).reply,
{
}

/// What a master sends to its replicas for a `SET` is a well-formed
/// frame, reads back off the wire as that frame, and asks of the replica
/// the same `SET`: the same key, value and time to live.
pub proof fn lemma_propagated_set_reads_back(key: Seq<u8>, val: Seq<u8>, ttl: Option<u64>)
    requires
        key.len() <= u64::MAX,
        val.len() <= u64::MAX,
    ensures
        canonical_set(key, val, ttl).wf(),
        decode(canonical_set(key, val, ttl).wire()) == Decoded::Complete(
            canonical_set(key, val, ttl),
        ),
        classify(canonical_set(key, val, ttl)) == Request::SetKey(key, val, ttl),
{
    reveal_strlit("SET");
    reveal_strlit("PX");
    reveal_strlit("set");
    reveal_strlit("px");
    reveal_strlit("ping");
    reveal_strlit("echo");
    let f = canonical_set(key, val, ttl);
    let name = bytes_of("SET"@);
    lemma_same_word_len(name, bytes_of("ping"@));
    lemma_same_word_len(name, bytes_of("echo"@));
    assert(lower(name) =~= lower(bytes_of("set"@)));
    assert(lower(bytes_of("PX"@)) =~= lower(bytes_of("px"@)));
    if let Some(t) = ttl {
        lemma_digits_len(t as nat);
        lemma_digits_value(t as nat);
    }
    assert(f.wf()) by {
        let items = f->Array_0;
        assert forall|i: int| 0 <= i < items.len() implies (#[trigger] items[i]).wf() by {}
    }
    lemma_round_trip(f, Seq::empty());
}

} // verus!
