//! What holds of the commands, one after the other.
//!
//! Each law speaks of [`run`], the reply and the store that a command
//! leaves. A request is written as its frames: the name as the client sent
//! it, which plays no part once the command is known, then the arguments
//! as bulk strings.

use crate::commands::{
    append_spec, bulk_payloads, del_spec, echo_spec, exists_spec, expire_spec, get_spec,
    getset_spec, increment_spec, mget_spec, mset_spec, ping_spec, run, set_spec, strlen_spec,
    ttl_spec,
};
use crate::decimal::{int_digits, lemma_int_digits_bytes, lemma_parse_int_digits, parse_i64};
use crate::resp_frame::FrameView;
use crate::store::{live, StoreMap};
use crate::text::lemma_ascii_is_utf8;
use vstd::prelude::*;
use vstd::utf8::valid_utf8;

verus! {

/// A request with one argument.
pub open spec fn request1(head: FrameView, a: Seq<u8>) -> Seq<FrameView> {
    seq![head, FrameView::BulkString(a)]
}

/// A request with two arguments.
pub open spec fn request2(head: FrameView, a: Seq<u8>, b: Seq<u8>) -> Seq<FrameView> {
    seq![head, FrameView::BulkString(a), FrameView::BulkString(b)]
}

/// A request with three arguments.
pub open spec fn request3(head: FrameView, a: Seq<u8>, b: Seq<u8>, c: Seq<u8>) -> Seq<
    FrameView,
> {
    seq![head, FrameView::BulkString(a), FrameView::BulkString(b), FrameView::BulkString(c)]
}

/// Each name runs its own command.
pub proof fn lemma_dispatch(args: Seq<FrameView>, store: StoreMap, now: u64)
    ensures
        run("PING"@, args, store, now) == ping_spec(args, store),
        run("ECHO"@, args, store, now) == echo_spec(args, store),
        run("COMMAND"@, args, store, now) == (FrameView::Array(Seq::empty()), store),
        run("SET"@, args, store, now) == set_spec(args, store, now),
        run("GET"@, args, store, now) == get_spec(args, store, now),
        run("DEL"@, args, store, now) == del_spec(args, store, now),
        run("EXISTS"@, args, store, now) == exists_spec(args, store, now),
        run("EXPIRE"@, args, store, now) == expire_spec(args, store, now),
        run("TTL"@, args, store, now) == ttl_spec(args, store, now),
        run("INCR"@, args, store, now) == increment_spec(args, store, 1, now),
        run("DECR"@, args, store, now) == increment_spec(args, store, -1i64, now),
        run("MSET"@, args, store, now) == mset_spec(args, store),
        run("MGET"@, args, store, now) == mget_spec(args, store, now),
        run("STRLEN"@, args, store, now) == strlen_spec(args, store, now),
        run("APPEND"@, args, store, now) == append_spec(args, store, now),
        run("GETSET"@, args, store, now) == getset_spec(args, store, now),
{
    reveal_strlit("PING");
    reveal_strlit("ECHO");
    reveal_strlit("COMMAND");
    reveal_strlit("SET");
    reveal_strlit("GET");
    reveal_strlit("DEL");
    reveal_strlit("EXISTS");
    reveal_strlit("EXPIRE");
    reveal_strlit("TTL");
    reveal_strlit("INCR");
    reveal_strlit("DECR");
    reveal_strlit("MSET");
    reveal_strlit("MGET");
    reveal_strlit("STRLEN");
    reveal_strlit("APPEND");
    reveal_strlit("GETSET");
    assert("PING"@.len() == 4 && "PING"@[0] == 'P' && "PING"@[1] == 'I' && "PING"@[2] == 'N');
    assert("ECHO"@.len() == 4 && "ECHO"@[0] == 'E' && "ECHO"@[1] == 'C' && "ECHO"@[2] == 'H');
    assert("COMMAND"@.len() == 7 && "COMMAND"@[0] == 'C' && "COMMAND"@[1] == 'O' && "COMMAND"@[2] == 'M');
    assert("SET"@.len() == 3 && "SET"@[0] == 'S' && "SET"@[1] == 'E' && "SET"@[2] == 'T');
    assert("GET"@.len() == 3 && "GET"@[0] == 'G' && "GET"@[1] == 'E' && "GET"@[2] == 'T');
    assert("DEL"@.len() == 3 && "DEL"@[0] == 'D' && "DEL"@[1] == 'E' && "DEL"@[2] == 'L');
    assert("EXISTS"@.len() == 6 && "EXISTS"@[0] == 'E' && "EXISTS"@[1] == 'X' && "EXISTS"@[2] == 'I');
    assert("EXPIRE"@.len() == 6 && "EXPIRE"@[0] == 'E' && "EXPIRE"@[1] == 'X' && "EXPIRE"@[2] == 'P');
    assert("TTL"@.len() == 3 && "TTL"@[0] == 'T' && "TTL"@[1] == 'T' && "TTL"@[2] == 'L');
    assert("INCR"@.len() == 4 && "INCR"@[0] == 'I' && "INCR"@[1] == 'N' && "INCR"@[2] == 'C');
    assert("DECR"@.len() == 4 && "DECR"@[0] == 'D' && "DECR"@[1] == 'E' && "DECR"@[2] == 'C');
    assert("MSET"@.len() == 4 && "MSET"@[0] == 'M' && "MSET"@[1] == 'S' && "MSET"@[2] == 'E');
    assert("MGET"@.len() == 4 && "MGET"@[0] == 'M' && "MGET"@[1] == 'G' && "MGET"@[2] == 'E');
    assert("STRLEN"@.len() == 6 && "STRLEN"@[0] == 'S' && "STRLEN"@[1] == 'T' && "STRLEN"@[2] == 'R');
    assert("APPEND"@.len() == 6 && "APPEND"@[0] == 'A' && "APPEND"@[1] == 'P' && "APPEND"@[2] == 'P');
    assert("GETSET"@.len() == 6 && "GETSET"@[0] == 'G' && "GETSET"@[1] == 'E' && "GETSET"@[2] == 'T');
}

/// The decimal text of an integer is valid UTF-8 and reads back as the
/// integer.
pub proof fn lemma_decimal_argument(i: i64)
    ensures
        valid_utf8(int_digits(i as int)),
        parse_i64(int_digits(i as int)) == Some(i),
{
    lemma_int_digits_bytes(i as int);
    lemma_ascii_is_utf8(int_digits(i as int));
    lemma_parse_int_digits(i as int);
}

/// `SET k v`, `EXPIRE k 0`: from then on `GET k` gives `Null` and `TTL k`
/// gives -2, whenever they are asked.
pub proof fn law_expire_zero_removes(
    head: FrameView,
    store: StoreMap,
    key: Seq<u8>,
    data: Seq<u8>,
    set_at: u64,
    expire_at: u64,
    asked_at: u64,
)
    ensures
        ({
            let written = run("SET"@, request2(head, key, data), store, set_at).1;
            let expired = run(
                "EXPIRE"@,
                request2(head, key, int_digits(0)),
                written,
                expire_at,
            ).1;
            &&& run("GET"@, request1(head, key), expired, asked_at).0 == FrameView::Null
            &&& run("TTL"@, request1(head, key), expired, asked_at).0 == FrameView::Integer(-2i64)
        }),
{
    let written = run("SET"@, request2(head, key, data), store, set_at).1;
    lemma_dispatch(request2(head, key, data), store, set_at);
    lemma_dispatch(request2(head, key, int_digits(0)), written, expire_at);
    let expired = run("EXPIRE"@, request2(head, key, int_digits(0)), written, expire_at).1;
    lemma_dispatch(request1(head, key), expired, asked_at);
    lemma_decimal_argument(0);
    assert(!expired.contains_key(key));
}

/// `SET k v`, `EXPIRE k n` with `n` positive while the key is present:
/// `TTL k`, asked no earlier than the `EXPIRE` and no later than `n`
/// seconds after it, gives a number from 0 to `n`.
pub proof fn law_expire_bounds_ttl(
    head: FrameView,
    store: StoreMap,
    key: Seq<u8>,
    data: Seq<u8>,
    seconds: i64,
    set_at: u64,
    expire_at: u64,
    asked_at: u64,
)
    requires
        seconds > 0,
        live(run("SET"@, request2(head, key, data), store, set_at).1, key, expire_at),
        expire_at <= asked_at <= expire_at + seconds * 1_000_000_000,
    ensures
        ({
            let written = run("SET"@, request2(head, key, data), store, set_at).1;
            let timed = run(
                "EXPIRE"@,
                request2(head, key, int_digits(seconds as int)),
                written,
                expire_at,
            ).1;
            &&& run("TTL"@, request1(head, key), timed, asked_at).0 matches FrameView::Integer(
                left,
            )
            &&& 0 <= left <= seconds
        }),
{
    let written = run("SET"@, request2(head, key, data), store, set_at).1;
    lemma_dispatch(request2(head, key, data), store, set_at);
    lemma_dispatch(request2(head, key, int_digits(seconds as int)), written, expire_at);
    let timed = run(
        "EXPIRE"@,
        request2(head, key, int_digits(seconds as int)),
        written,
        expire_at,
    ).1;
    lemma_dispatch(request1(head, key), timed, asked_at);
    lemma_decimal_argument(seconds);
}

/// `SET k v1`, `EXPIRE k n` with `n` positive while the key is present,
/// `SET k v2`: the key keeps its expiry and holds the new value. Asked no
/// later than `n` seconds after the `EXPIRE`, `TTL k` gives a number from 0
/// to `n` and `GET k` gives `v2`.
pub proof fn law_set_preserves_expiry(
    head: FrameView,
    store: StoreMap,
    key: Seq<u8>,
    first: Seq<u8>,
    second: Seq<u8>,
    seconds: i64,
    set_at: u64,
    expire_at: u64,
    reset_at: u64,
    asked_at: u64,
)
    requires
        seconds > 0,
        live(run("SET"@, request2(head, key, first), store, set_at).1, key, expire_at),
        expire_at <= reset_at <= asked_at <= expire_at + seconds * 1_000_000_000,
    ensures
        ({
            let written = run("SET"@, request2(head, key, first), store, set_at).1;
            let timed = run(
                "EXPIRE"@,
                request2(head, key, int_digits(seconds as int)),
                written,
                expire_at,
            ).1;
            let rewritten = run("SET"@, request2(head, key, second), timed, reset_at).1;
            &&& run("TTL"@, request1(head, key), rewritten, asked_at).0 matches FrameView::Integer(
                left,
            )
            &&& 0 <= left <= seconds
            &&& run("GET"@, request1(head, key), rewritten, asked_at).0 == FrameView::BulkString(
                second,
            )
        }),
{
    let written = run("SET"@, request2(head, key, first), store, set_at).1;
    lemma_dispatch(request2(head, key, first), store, set_at);
    lemma_dispatch(request2(head, key, int_digits(seconds as int)), written, expire_at);
    let timed = run(
        "EXPIRE"@,
        request2(head, key, int_digits(seconds as int)),
        written,
        expire_at,
    ).1;
    lemma_dispatch(request2(head, key, second), timed, reset_at);
    let rewritten = run("SET"@, request2(head, key, second), timed, reset_at).1;
    lemma_dispatch(request1(head, key), rewritten, asked_at);
    lemma_decimal_argument(seconds);
}

/// `MSET k v` and `GETSET k v` clear the expiry: whatever the key held and
/// however it was to expire, `TTL k` gives -1 from then on.
pub proof fn law_overwrite_clears_expiry(
    head: FrameView,
    store: StoreMap,
    key: Seq<u8>,
    data: Seq<u8>,
    written_at: u64,
    asked_at: u64,
)
    ensures
        run(
            "TTL"@,
            request1(head, key),
            run("MSET"@, request2(head, key, data), store, written_at).1,
            asked_at,
        ).0 == FrameView::Integer(-1i64),
        run(
            "TTL"@,
            request1(head, key),
            run("GETSET"@, request2(head, key, data), store, written_at).1,
            asked_at,
        ).0 == FrameView::Integer(-1i64),
{
    lemma_dispatch(request2(head, key, data), store, written_at);
    let by_mset = run("MSET"@, request2(head, key, data), store, written_at).1;
    let by_getset = run("GETSET"@, request2(head, key, data), store, written_at).1;
    lemma_dispatch(request1(head, key), by_mset, asked_at);
    lemma_dispatch(request1(head, key), by_getset, asked_at);
    let pairs = request2(head, key, data).skip(1);
    assert(pairs[0] == FrameView::BulkString(key));
    assert(pairs[1] == FrameView::BulkString(data));
    reveal_with_fuel(crate::commands::bulk_pairs, 2);
    reveal_with_fuel(crate::store::mset_many, 2);
    assert(crate::commands::bulk_pairs(pairs, 0) == Ok::<Seq<(Seq<u8>, Seq<u8>)>, Seq<char>>(
        Seq::empty(),
    ));
    assert(crate::commands::bulk_pairs(pairs, 1)->Ok_0 =~= seq![(key, data)]);
}

/// `INCR k` on an absent key gives 1, and `GET k` then gives the text `1`.
pub proof fn law_incr_absent(
    head: FrameView,
    store: StoreMap,
    key: Seq<u8>,
    incr_at: u64,
    asked_at: u64,
)
    requires
        !live(store, key, incr_at),
    ensures
        run("INCR"@, request1(head, key), store, incr_at).0 == FrameView::Integer(1),
        run(
            "GET"@,
            request1(head, key),
            run("INCR"@, request1(head, key), store, incr_at).1,
            asked_at,
        ).0 == FrameView::BulkString(seq![49u8]),
{
    lemma_dispatch(request1(head, key), store, incr_at);
    let counted = run("INCR"@, request1(head, key), store, incr_at).1;
    lemma_dispatch(request1(head, key), counted, asked_at);
    assert(int_digits(1) =~= seq![49u8]);
}

/// `INCR k` on a key that holds the largest 64-bit integer gives that
/// integer again, and the key still holds it.
pub proof fn law_incr_saturates(head: FrameView, store: StoreMap, key: Seq<u8>, now: u64)
    requires
        live(store, key, now),
        store[key].data == int_digits(i64::MAX as int),
    ensures
        run("INCR"@, request1(head, key), store, now).0 == FrameView::Integer(i64::MAX),
        run("INCR"@, request1(head, key), store, now).1 == store,
{
    lemma_dispatch(request1(head, key), store, now);
    lemma_decimal_argument(i64::MAX);
    assert(run("INCR"@, request1(head, key), store, now).1 =~= store);
}

/// `INCR k` on a key whose value is no 64-bit integer in decimal gives an
/// error and leaves the store as it was.
pub proof fn law_incr_rejects_non_integer(
    head: FrameView,
    store: StoreMap,
    key: Seq<u8>,
    now: u64,
)
    requires
        live(store, key, now),
        !valid_utf8(store[key].data) || parse_i64(store[key].data) is None,
    ensures
        run("INCR"@, request1(head, key), store, now).0 is Error,
        run("INCR"@, request1(head, key), store, now).1 == store,
{
    lemma_dispatch(request1(head, key), store, now);
}

/// `DEL a b c` with `a` and `c` present and `b` absent gives 2, and
/// `EXISTS a a b` gives 2.
pub proof fn law_del_exists_counts(
    head: FrameView,
    store: StoreMap,
    a: Seq<u8>,
    b: Seq<u8>,
    c: Seq<u8>,
    now: u64,
)
    requires
        live(store, a, now),
        !live(store, b, now),
        live(store, c, now),
        a != c,
    ensures
        run("DEL"@, request3(head, a, b, c), store, now).0 == FrameView::Integer(2),
        run("EXISTS"@, request3(head, a, a, b), store, now).0 == FrameView::Integer(2),
{
    lemma_dispatch(request3(head, a, b, c), store, now);
    lemma_dispatch(request3(head, a, a, b), store, now);
    lemma_payloads3(head, a, b, c);
    lemma_payloads3(head, a, a, b);
    reveal_with_fuel(crate::store::delete_many, 4);
    reveal_with_fuel(crate::store::exists_many, 4);
    let abc = seq![a, b, c];
    assert(abc.drop_last() =~= seq![a, b]);
    assert(seq![a, b].drop_last() =~= seq![a]);
    assert(seq![a].drop_last() =~= Seq::<Seq<u8>>::empty());
    let aab = seq![a, a, b];
    assert(aab.drop_last() =~= seq![a, a]);
    assert(seq![a, a].drop_last() =~= seq![a]);
}

proof fn lemma_payloads3(head: FrameView, a: Seq<u8>, b: Seq<u8>, c: Seq<u8>)
    ensures
        bulk_payloads(request3(head, a, b, c).skip(1)) == seq![a, b, c],
{
    let frames = request3(head, a, b, c).skip(1);
    let two = frames.drop_last();
    let one = two.drop_last();
    assert(one.drop_last() =~= Seq::<FrameView>::empty());
    assert(bulk_payloads(one.drop_last()) =~= Seq::<Seq<u8>>::empty());
    assert(bulk_payloads(one) =~= seq![a]);
    assert(bulk_payloads(two) =~= seq![a, b]);
    assert(bulk_payloads(frames) =~= seq![a, b, c]);
}

} // verus!
