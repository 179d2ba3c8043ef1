//! The command dispatcher: from a request frame and the store to a reply
//! frame and the store as the command leaves it.

use crate::buffer::{as_slice, contents, each_contents, slice_eq};
use crate::decimal::{parse_decimal, parse_i64};
use crate::resp_frame::{lemma_array_view, views, FrameView, RespFrame};
use crate::store::{
    appended, count_as_i64, delete_many, evict, exists_many, expire_result, expire_store,
    get_result, incr_reply, incr_store, mset_many, pair_contents, purge, set_store, strlen_result,
    ttl_result, ExpiryPolicy, Store, StoreMap,
};
use crate::text::{
    is_utf8, lossy_text, text_eq, text_from_utf8_lossy, text_to_uppercase, uppercase_text,
};
use bytes::Bytes;
use vstd::prelude::*;
use vstd::string::StringExecFns;
use vstd::utf8::valid_utf8;

verus! {

/// The payloads of the bulk strings among `frames`, in order; frames of
/// another kind are passed over.
pub open spec fn bulk_payloads(frames: Seq<FrameView>) -> Seq<Seq<u8>>
    decreases frames.len(),
{
    if frames.len() == 0 {
        Seq::empty()
    } else {
        let before = bulk_payloads(frames.drop_last());
        match frames.last() {
            FrameView::BulkString(payload) => before.push(payload),
            _ => before,
        }
    }
}

/// The key and value of each of the first `n` pairs of `frames`, in order;
/// or, where a frame among them is no bulk string, what to say of the first
/// such frame.
pub open spec fn bulk_pairs(frames: Seq<FrameView>, n: nat) -> Result<
    Seq<(Seq<u8>, Seq<u8>)>,
    Seq<char>,
>
    decreases n,
{
    if n == 0 {
        Ok(Seq::empty())
    } else {
        match bulk_pairs(frames, (n - 1) as nat) {
            Err(message) => Err(message),
            Ok(before) => match (frames[2 * (n - 1)], frames[2 * (n - 1) + 1]) {
                (FrameView::BulkString(key), FrameView::BulkString(data)) => Ok(
                    before.push((key, data)),
                ),
                (FrameView::BulkString(_), _) => Err("ERR value is not a BulkString"@),
                _ => Err("ERR key is not a BulkString"@),
            },
        }
    }
}

/// Once a pair is at fault, so is every longer run of pairs, and for the
/// same reason.
pub proof fn lemma_bulk_pairs_fault(frames: Seq<FrameView>, k: nat, n: nat)
    requires
        k <= n,
        bulk_pairs(frames, k) is Err,
    ensures
        bulk_pairs(frames, n) == bulk_pairs(frames, k),
    decreases n,
{
    if k < n {
        lemma_bulk_pairs_fault(frames, k, (n - 1) as nat);
    }
}

/// The frame that answers a read.
pub open spec fn read_reply(found: Option<Seq<u8>>) -> FrameView {
    match found {
        Some(data) => FrameView::BulkString(data),
        None => FrameView::Null,
    }
}

/// The store after each of `frames` is read in turn, and the replies: a
/// frame that is no bulk string reads nothing and gives `Null`.
pub open spec fn read_each(store: StoreMap, frames: Seq<FrameView>, now: u64) -> (
    StoreMap,
    Seq<FrameView>,
)
    decreases frames.len(),
{
    if frames.len() == 0 {
        (store, Seq::empty())
    } else {
        let (before, replies) = read_each(store, frames.drop_last(), now);
        match frames.last() {
            FrameView::BulkString(key) => (
                evict(before, key, now),
                replies.push(read_reply(get_result(before, key, now))),
            ),
            _ => (before, replies.push(FrameView::Null)),
        }
    }
}

/// An error reply that leaves the store as it was.
pub open spec fn refused(message: Seq<char>, store: StoreMap) -> (FrameView, StoreMap) {
    (FrameView::Error(message), store)
}

/// `PING`: `PONG`, or the argument if there is one.
pub open spec fn ping_spec(args: Seq<FrameView>, store: StoreMap) -> (FrameView, StoreMap) {
    if args.len() == 1 {
        (FrameView::SimpleString("PONG"@), store)
    } else if args.len() == 2 {
        (args[1], store)
    } else {
        refused("ERR wrong number of arguments for 'ping' command"@, store)
    }
}

/// `ECHO`: the argument.
pub open spec fn echo_spec(args: Seq<FrameView>, store: StoreMap) -> (FrameView, StoreMap) {
    if args.len() == 2 {
        (args[1], store)
    } else {
        refused("ERR wrong number of arguments for 'echo' command"@, store)
    }
}

/// `SET key value`: writes the value; a present key keeps its expiry.
pub open spec fn set_spec(args: Seq<FrameView>, store: StoreMap, now: u64) -> (
    FrameView,
    StoreMap,
) {
    if args.len() != 3 {
        refused("ERR wrong number of argument for 'set' command"@, store)
    } else {
        match (args[1], args[2]) {
            (FrameView::BulkString(key), FrameView::BulkString(data)) => (
                FrameView::SimpleString("OK"@),
                set_store(store, key, data, ExpiryPolicy::Preserve, now),
            ),
            (FrameView::BulkString(_), _) => refused("ERR value is not BulkString"@, store),
            _ => refused("ERR key is not a BulkString"@, store),
        }
    }
}

/// `GET key`: the value, or `Null`.
pub open spec fn get_spec(args: Seq<FrameView>, store: StoreMap, now: u64) -> (
    FrameView,
    StoreMap,
) {
    if args.len() != 2 {
        refused("ERR wrong number of argument for 'set' command"@, store)
    } else {
        match args[1] {
            FrameView::BulkString(key) => (
                read_reply(get_result(store, key, now)),
                evict(store, key, now),
            ),
            _ => refused("ERR key is not a BulkString"@, store),
        }
    }
}

/// `DEL key ...`: deletes the keys and counts those that were present.
pub open spec fn del_spec(args: Seq<FrameView>, store: StoreMap, now: u64) -> (
    FrameView,
    StoreMap,
) {
    if args.len() < 2 {
        refused("ERR DEL must have atleast one key to be deleted"@, store)
    } else {
        let (after, count) = delete_many(store, bulk_payloads(args.skip(1)), now);
        (FrameView::Integer(count_as_i64(count)), after)
    }
}

/// `EXISTS key ...`: counts the keys that are present.
pub open spec fn exists_spec(args: Seq<FrameView>, store: StoreMap, now: u64) -> (
    FrameView,
    StoreMap,
) {
    if args.len() < 2 {
        refused("ERR EXISTS must have atleast one key to be checked"@, store)
    } else {
        let (after, count) = exists_many(store, bulk_payloads(args.skip(1)), now);
        (FrameView::Integer(count_as_i64(count)), after)
    }
}

/// `EXPIRE key seconds`: sets the expiry of a present key, or deletes it
/// where `seconds` is not positive.
pub open spec fn expire_spec(args: Seq<FrameView>, store: StoreMap, now: u64) -> (
    FrameView,
    StoreMap,
) {
    if args.len() != 3 {
        refused("ERR wrong number of arguments for 'expire' command"@, store)
    } else {
        match (args[1], args[2]) {
            (FrameView::BulkString(key), FrameView::BulkString(text)) => {
                if !valid_utf8(text) {
                    refused("ERR expiry is not valid UTF-8"@, store)
                } else {
                    match parse_i64(text) {
                        Some(seconds) => (
                            FrameView::Integer(expire_result(store, key, now)),
                            expire_store(store, key, seconds, now),
                        ),
                        None => refused("ERR expiry is not a valid integer"@, store),
                    }
                }
            },
            (FrameView::BulkString(_), _) => refused("ERR expiry is not a BulkString"@, store),
            _ => refused("ERR key is not a BulkString"@, store),
        }
    }
}

/// `TTL key`: the seconds the key has left.
pub open spec fn ttl_spec(args: Seq<FrameView>, store: StoreMap, now: u64) -> (
    FrameView,
    StoreMap,
) {
    if args.len() != 2 {
        refused("ERR wrong number of arguments for 'ttl' command"@, store)
    } else {
        match args[1] {
            FrameView::BulkString(key) => (
                FrameView::Integer(ttl_result(store, key, now)),
                evict(store, key, now),
            ),
            _ => refused("ERR key is not a BulkString"@, store),
        }
    }
}

/// `INCR key` and `DECR key`: adds `amount` to the counter under the key.
pub open spec fn increment_spec(args: Seq<FrameView>, store: StoreMap, amount: i64, now: u64) -> (
    FrameView,
    StoreMap,
) {
    if args.len() != 2 {
        refused("ERR wrong number of arguments"@, store)
    } else {
        match args[1] {
            FrameView::BulkString(key) => (
                incr_reply(store, key, amount, now),
                incr_store(store, key, amount, now),
            ),
            _ => refused("ERR key is not a BulkString"@, store),
        }
    }
}

/// `MSET key value ...`: writes each pair, none with an expiry. Where an
/// argument is no bulk string, nothing is written.
pub open spec fn mset_spec(args: Seq<FrameView>, store: StoreMap) -> (FrameView, StoreMap) {
    if args.len() < 3 || args.len() % 2 == 0 {
        refused("ERR wrong number of arguments for 'mset' command"@, store)
    } else {
        match bulk_pairs(args.skip(1), ((args.len() - 1) / 2) as nat) {
            Ok(pairs) => (FrameView::SimpleString("OK"@), mset_many(store, pairs)),
            Err(message) => refused(message, store),
        }
    }
}

/// `MGET key ...`: one reply for each argument.
pub open spec fn mget_spec(args: Seq<FrameView>, store: StoreMap, now: u64) -> (
    FrameView,
    StoreMap,
) {
    if args.len() < 2 {
        refused("ERR wrong number of args for 'mget"@, store)
    } else {
        let (after, replies) = read_each(store, args.skip(1), now);
        (FrameView::Array(replies), after)
    }
}

/// `STRLEN key`: the length of the value.
pub open spec fn strlen_spec(args: Seq<FrameView>, store: StoreMap, now: u64) -> (
    FrameView,
    StoreMap,
) {
    if args.len() != 2 {
        refused("ERR wrong number of arguments for 'strlen' command"@, store)
    } else {
        match args[1] {
            FrameView::BulkString(key) => (
                FrameView::Integer(strlen_result(store, key, now)),
                evict(store, key, now),
            ),
            _ => refused("ERR key is not a BulkString"@, store),
        }
    }
}

/// `APPEND key value`: appends to the value and replies the new length.
pub open spec fn append_spec(args: Seq<FrameView>, store: StoreMap, now: u64) -> (
    FrameView,
    StoreMap,
) {
    if args.len() != 3 {
        refused("ERR wrong number of arguments for 'append' "@, store)
    } else {
        match (args[1], args[2]) {
            (FrameView::BulkString(key), FrameView::BulkString(suffix)) => {
                let value = appended(store, key, suffix, now);
                (FrameView::Integer(count_as_i64(value.data.len())), store.insert(key, value))
            },
            (FrameView::BulkString(_), _) => refused("ERR value is not a BulkString"@, store),
            _ => refused("ERR key is not a BulkString"@, store),
        }
    }
}

/// `GETSET key value`: writes the value with no expiry and replies the
/// value that was there.
pub open spec fn getset_spec(args: Seq<FrameView>, store: StoreMap, now: u64) -> (
    FrameView,
    StoreMap,
) {
    if args.len() != 3 {
        refused("ERR wrong number of arguments for 'getset' command"@, store)
    } else {
        match (args[1], args[2]) {
            (FrameView::BulkString(key), FrameView::BulkString(data)) => (
                read_reply(get_result(store, key, now)),
                set_store(store, key, data, ExpiryPolicy::Clear, now),
            ),
            (FrameView::BulkString(_), _) => refused("ERR value is not a BulkString"@, store),
            _ => refused("ERR key is not a BulkString"@, store),
        }
    }
}

/// Whether `reply` lists the keys of `store`: an array of bulk strings,
/// one for each key, in any order.
pub open spec fn lists_keys(reply: FrameView, store: StoreMap) -> bool {
    &&& reply matches FrameView::Array(items)
    &&& forall|i: int| 0 <= i < items.len() ==> #[trigger] items[i] is BulkString
    &&& bulk_payloads(items).no_duplicates()
    &&& bulk_payloads(items).to_set() == store.dom()
}

/// `KEYS *`: evicts what has expired and lists the keys that are left.
pub open spec fn keys_done(
    args: Seq<FrameView>,
    store: StoreMap,
    now: u64,
    reply: FrameView,
    after: StoreMap,
) -> bool {
    if args.len() != 2 {
        (reply, after) == refused("ERR wrong number of arguments for 'keys' command"@, store)
    } else {
        match args[1] {
            FrameView::BulkString(pattern) => if pattern == seq![42u8] {
                after == purge(store, now) && lists_keys(reply, after)
            } else {
                (reply, after) == refused("ERR only '*' pattern is supported"@, store)
            },
            _ => (reply, after) == refused("ERR pattern is not a BulkString"@, store),
        }
    }
}

/// Whether `name` is a command whose reply the store and the arguments fix;
/// all are but `KEYS`, which may list the keys in any order.
pub open spec fn is_functional(name: Seq<char>) -> bool {
    name != "KEYS"@
}

/// The reply to the command `name` and the store after it, for every
/// command but `KEYS`.
pub open spec fn run(name: Seq<char>, args: Seq<FrameView>, store: StoreMap, now: u64) -> (
    FrameView,
    StoreMap,
) {
    if name == "PING"@ {
        ping_spec(args, store)
    } else if name == "ECHO"@ {
        echo_spec(args, store)
    } else if name == "COMMAND"@ {
        (FrameView::Array(Seq::empty()), store)
    } else if name == "SET"@ {
        set_spec(args, store, now)
    } else if name == "GET"@ {
        get_spec(args, store, now)
    } else if name == "DEL"@ {
        del_spec(args, store, now)
    } else if name == "EXISTS"@ {
        exists_spec(args, store, now)
    } else if name == "EXPIRE"@ {
        expire_spec(args, store, now)
    } else if name == "TTL"@ {
        ttl_spec(args, store, now)
    } else if name == "INCR"@ {
        increment_spec(args, store, 1, now)
    } else if name == "DECR"@ {
        increment_spec(args, store, -1i64, now)
    } else if name == "MSET"@ {
        mset_spec(args, store)
    } else if name == "MGET"@ {
        mget_spec(args, store, now)
    } else if name == "STRLEN"@ {
        strlen_spec(args, store, now)
    } else if name == "APPEND"@ {
        append_spec(args, store, now)
    } else if name == "GETSET"@ {
        getset_spec(args, store, now)
    } else {
        refused("ERR unknown command '"@ + name + "'"@, store)
    }
}

/// Whether `reply` and `after` are what the command `name` with `args`
/// leaves of `store` at `now`.
pub open spec fn executed(
    name: Seq<char>,
    args: Seq<FrameView>,
    store: StoreMap,
    now: u64,
    reply: FrameView,
    after: StoreMap,
) -> bool {
    if is_functional(name) {
        (reply, after) == run(name, args, store, now)
    } else {
        keys_done(args, store, now, reply, after)
    }
}

/// The command that a request names in its first frame: the text of a bulk
/// or simple string in upper case; none for a frame of another kind.
pub open spec fn command_name(first: FrameView) -> Option<Seq<char>> {
    match first {
        FrameView::BulkString(bytes) => Some(uppercase_text(lossy_text(bytes))),
        FrameView::SimpleString(text) => Some(uppercase_text(text)),
        _ => None,
    }
}

/// Whether `reply` and `after` are what the request `frame` leaves of
/// `store` at `now`.
pub open spec fn handled(
    frame: FrameView,
    store: StoreMap,
    now: u64,
    reply: FrameView,
    after: StoreMap,
) -> bool {
    match frame {
        FrameView::Array(args) => if args.len() == 0 {
            (reply, after) == refused("ERR empty command"@, store)
        } else {
            match command_name(args[0]) {
                Some(name) => executed(name, args, store, now, reply, after),
                None => (reply, after) == refused("ERR invalid command format"@, store),
            }
        },
        _ => (reply, after) == refused("ERR command must be an array"@, store),
    }
}

/// An error reply with the text `message`.
fn error(message: &str) -> (reply: RespFrame)
    ensures
        reply@ == FrameView::Error(message@),
{
    RespFrame::Error(message.to_string())
}

/// The payload of `frame`, if it is a bulk string.
fn bulk(frame: &RespFrame) -> (r: Option<&Bytes>)
    ensures
        match r {
            Some(payload) => frame@ == FrameView::BulkString(contents(*payload)),
            None => !(frame@ is BulkString),
        },
{
    match frame {
        RespFrame::BulkString(payload) => Some(payload),
        _ => None,
    }
}

/// The frame that answers a read.
fn read_frame(found: Option<Bytes>) -> (reply: RespFrame)
    ensures
        reply@ == read_reply(crate::buffer::opt_contents(found)),
{
    match found {
        Some(data) => RespFrame::BulkString(data),
        None => RespFrame::Null,
    }
}

/// The payloads of the bulk strings among `args` from the second on.
fn argument_keys(args: &Vec<RespFrame>) -> (keys: Vec<Bytes>)
    requires
        args.len() >= 1,
    ensures
        each_contents(keys@) == bulk_payloads(views(args@).skip(1)),
{
    let ghost rest = views(args@).skip(1);
    let mut keys: Vec<Bytes> = Vec::new();
    let mut i: usize = 1;
    assert(rest.take(0) =~= Seq::<FrameView>::empty());
    assert(each_contents(keys@) =~= Seq::<Seq<u8>>::empty());
    while i < args.len()
        invariant
            1 <= i <= args.len(),
            rest == views(args@).skip(1),
            each_contents(keys@) == bulk_payloads(rest.take(i - 1)),
        decreases args.len() - i,
    {
        assert(rest.take(i as int).drop_last() =~= rest.take(i - 1));
        assert(rest.take(i as int).last() == args[i as int]@);
        let ghost before = keys@;
        match bulk(&args[i]) {
            Some(payload) => {
                let key = payload.clone();
                keys.push(key);
                assert(each_contents(keys@) =~= each_contents(before).push(contents(key)));
            },
            None => {},
        }
        i += 1;
    }
    assert(rest.take(args.len() - 1) =~= rest);
    keys
}

/// `PING`.
fn ping(args: &Vec<RespFrame>) -> (reply: RespFrame)
    ensures
        forall|store: StoreMap| (reply@, store) == #[trigger] ping_spec(views(args@), store),
{
    if args.len() == 1 {
        RespFrame::SimpleString("PONG".to_string())
    } else if args.len() == 2 {
        args[1].clone()
    } else {
        error("ERR wrong number of arguments for 'ping' command")
    }
}

/// `ECHO`.
fn echo(args: &Vec<RespFrame>) -> (reply: RespFrame)
    ensures
        forall|store: StoreMap| (reply@, store) == #[trigger] echo_spec(views(args@), store),
{
    if args.len() == 2 {
        args[1].clone()
    } else {
        error("ERR wrong number of arguments for 'echo' command")
    }
}

/// `SET key value`.
fn set(args: &Vec<RespFrame>, db: &mut Store, now: u64) -> (reply: RespFrame)
    requires
        old(db).wf(),
    ensures
        final(db).wf(),
        (reply@, final(db)@) == set_spec(views(args@), old(db)@, now),
{
    if args.len() != 3 {
        return error("ERR wrong number of argument for 'set' command");
    }
    let key = match bulk(&args[1]) {
        Some(key) => key,
        None => {
            return error("ERR key is not a BulkString");
        },
    };
    let data = match bulk(&args[2]) {
        Some(data) => data,
        None => {
            return error("ERR value is not BulkString");
        },
    };
    db.set(key, data.clone(), ExpiryPolicy::Preserve, now);
    RespFrame::SimpleString("OK".to_string())
}

/// `GET key`.
fn get(args: &Vec<RespFrame>, db: &mut Store, now: u64) -> (reply: RespFrame)
    requires
        old(db).wf(),
    ensures
        final(db).wf(),
        (reply@, final(db)@) == get_spec(views(args@), old(db)@, now),
{
    if args.len() != 2 {
        return error("ERR wrong number of argument for 'set' command");
    }
    let key = match bulk(&args[1]) {
        Some(key) => key,
        None => {
            return error("ERR key is not a BulkString");
        },
    };
    read_frame(db.get(key, now))
}

/// `DEL key ...`.
fn del(args: &Vec<RespFrame>, db: &mut Store, now: u64) -> (reply: RespFrame)
    requires
        old(db).wf(),
    ensures
        final(db).wf(),
        (reply@, final(db)@) == del_spec(views(args@), old(db)@, now),
{
    if args.len() < 2 {
        return error("ERR DEL must have atleast one key to be deleted");
    }
    let keys = argument_keys(args);
    RespFrame::Integer(db.delete(&keys, now))
}

/// `EXISTS key ...`.
fn exists_count(args: &Vec<RespFrame>, db: &mut Store, now: u64) -> (reply: RespFrame)
    requires
        old(db).wf(),
    ensures
        final(db).wf(),
        (reply@, final(db)@) == exists_spec(views(args@), old(db)@, now),
{
    if args.len() < 2 {
        return error("ERR EXISTS must have atleast one key to be checked");
    }
    let keys = argument_keys(args);
    RespFrame::Integer(db.count_existing(&keys, now))
}

/// `EXPIRE key seconds`.
fn expire(args: &Vec<RespFrame>, db: &mut Store, now: u64) -> (reply: RespFrame)
    requires
        old(db).wf(),
    ensures
        final(db).wf(),
        (reply@, final(db)@) == expire_spec(views(args@), old(db)@, now),
{
    if args.len() != 3 {
        return error("ERR wrong number of arguments for 'expire' command");
    }
    let key = match bulk(&args[1]) {
        Some(key) => key,
        None => {
            return error("ERR key is not a BulkString");
        },
    };
    let text = match bulk(&args[2]) {
        Some(text) => as_slice(text),
        None => {
            return error("ERR expiry is not a BulkString");
        },
    };
    if !is_utf8(text) {
        return error("ERR expiry is not valid UTF-8");
    }
    let seconds = match parse_decimal(text) {
        Some(seconds) => seconds,
        None => {
            return error("ERR expiry is not a valid integer");
        },
    };
    RespFrame::Integer(db.expire(key, seconds, now))
}

/// `TTL key`.
fn ttl(args: &Vec<RespFrame>, db: &mut Store, now: u64) -> (reply: RespFrame)
    requires
        old(db).wf(),
    ensures
        final(db).wf(),
        (reply@, final(db)@) == ttl_spec(views(args@), old(db)@, now),
{
    if args.len() != 2 {
        return error("ERR wrong number of arguments for 'ttl' command");
    }
    let key = match bulk(&args[1]) {
        Some(key) => key,
        None => {
            return error("ERR key is not a BulkString");
        },
    };
    RespFrame::Integer(db.ttl(key, now))
}

/// `INCR` and `DECR`: adds `amount` to the counter that the second of
/// `args` names, an absent key counting as zero.
pub fn handle_increment(args: Vec<RespFrame>, db: &mut Store, amount: i64, now: u64) -> (reply:
    RespFrame)
    requires
        old(db).wf(),
    ensures
        final(db).wf(),
        (reply@, final(db)@) == increment_spec(views(args@), old(db)@, amount, now),
{
    if args.len() != 2 {
        return error("ERR wrong number of arguments");
    }
    let key = match bulk(&args[1]) {
        Some(key) => key,
        None => {
            return error("ERR key is not a BulkString");
        },
    };
    db.incr_by(key, amount, now)
}

/// `MSET key value ...`.
fn mset(args: &Vec<RespFrame>, db: &mut Store) -> (reply: RespFrame)
    requires
        old(db).wf(),
    ensures
        final(db).wf(),
        (reply@, final(db)@) == mset_spec(views(args@), old(db)@),
{
    if args.len() < 3 || args.len() % 2 == 0 {
        return error("ERR wrong number of arguments for 'mset' command");
    }
    let ghost rest = views(args@).skip(1);
    let chunks: usize = (args.len() - 1) / 2;
    let mut pairs: Vec<(Bytes, Bytes)> = Vec::new();
    let mut n: usize = 0;
    assert(pair_contents(pairs@) =~= Seq::<(Seq<u8>, Seq<u8>)>::empty());
    while n < chunks
        invariant
            n <= chunks,
            chunks == (args.len() - 1) / 2,
            args.len() >= 3,
            args.len() % 2 == 1,
            rest == views(args@).skip(1),
            db@ == old(db)@,
            db.wf(),
            bulk_pairs(rest, n as nat) == Ok::<Seq<(Seq<u8>, Seq<u8>)>, Seq<char>>(
                pair_contents(pairs@),
            ),
        decreases chunks - n,
    {
        assert(rest[2 * n] == args[1 + 2 * n]@);
        assert(rest[2 * n + 1] == args[2 + 2 * n]@);
        let ghost before = pairs@;
        let key = match bulk(&args[1 + 2 * n]) {
            Some(key) => key,
            None => {
                proof {
                    assert(bulk_pairs(rest, (n + 1) as nat) is Err);
                    lemma_bulk_pairs_fault(rest, (n + 1) as nat, chunks as nat);
                }
                return error("ERR key is not a BulkString");
            },
        };
        let data = match bulk(&args[2 + 2 * n]) {
            Some(data) => data,
            None => {
                proof {
                    assert(bulk_pairs(rest, (n + 1) as nat) is Err);
                    lemma_bulk_pairs_fault(rest, (n + 1) as nat, chunks as nat);
                }
                return error("ERR value is not a BulkString");
            },
        };
        let pair = (key.clone(), data.clone());
        pairs.push(pair);
        assert(pair_contents(pairs@) =~= pair_contents(before).push(
            (contents(pair.0), contents(pair.1)),
        ));
        n += 1;
    }
    db.mset(&pairs);
    RespFrame::SimpleString("OK".to_string())
}

/// `MGET key ...`.
fn mget(args: &Vec<RespFrame>, db: &mut Store, now: u64) -> (reply: RespFrame)
    requires
        old(db).wf(),
    ensures
        final(db).wf(),
        (reply@, final(db)@) == mget_spec(views(args@), old(db)@, now),
{
    if args.len() < 2 {
        return error("ERR wrong number of args for 'mget");
    }
    let ghost rest = views(args@).skip(1);
    let mut replies: Vec<RespFrame> = Vec::new();
    let mut i: usize = 1;
    assert(rest.take(0) =~= Seq::<FrameView>::empty());
    assert(views(replies@) =~= Seq::<FrameView>::empty());
    while i < args.len()
        invariant
            db.wf(),
            1 <= i <= args.len(),
            rest == views(args@).skip(1),
            (db@, views(replies@)) == read_each(old(db)@, rest.take(i - 1), now),
        decreases args.len() - i,
    {
        assert(rest.take(i as int).drop_last() =~= rest.take(i - 1));
        assert(rest.take(i as int).last() == args[i as int]@);
        let ghost before = replies@;
        let reply = match bulk(&args[i]) {
            Some(key) => read_frame(db.get(key, now)),
            None => RespFrame::Null,
        };
        replies.push(reply);
        assert(views(replies@) =~= views(before).push(reply@));
        i += 1;
    }
    assert(rest.take(args.len() - 1) =~= rest);
    proof {
        lemma_array_view(replies);
    }
    RespFrame::Array(replies)
}

/// `STRLEN key`.
fn strlen(args: &Vec<RespFrame>, db: &mut Store, now: u64) -> (reply: RespFrame)
    requires
        old(db).wf(),
    ensures
        final(db).wf(),
        (reply@, final(db)@) == strlen_spec(views(args@), old(db)@, now),
{
    if args.len() != 2 {
        return error("ERR wrong number of arguments for 'strlen' command");
    }
    let key = match bulk(&args[1]) {
        Some(key) => key,
        None => {
            return error("ERR key is not a BulkString");
        },
    };
    RespFrame::Integer(db.strlen(key, now))
}

/// `APPEND key value`.
fn append(args: &Vec<RespFrame>, db: &mut Store, now: u64) -> (reply: RespFrame)
    requires
        old(db).wf(),
    ensures
        final(db).wf(),
        (reply@, final(db)@) == append_spec(views(args@), old(db)@, now),
{
    if args.len() != 3 {
        return error("ERR wrong number of arguments for 'append' ");
    }
    let key = match bulk(&args[1]) {
        Some(key) => key,
        None => {
            return error("ERR key is not a BulkString");
        },
    };
    let suffix = match bulk(&args[2]) {
        Some(suffix) => suffix,
        None => {
            return error("ERR value is not a BulkString");
        },
    };
    RespFrame::Integer(db.append(key, suffix, now))
}

/// `GETSET key value`.
fn getset(args: &Vec<RespFrame>, db: &mut Store, now: u64) -> (reply: RespFrame)
    requires
        old(db).wf(),
    ensures
        final(db).wf(),
        (reply@, final(db)@) == getset_spec(views(args@), old(db)@, now),
{
    if args.len() != 3 {
        return error("ERR wrong number of arguments for 'getset' command");
    }
    let key = match bulk(&args[1]) {
        Some(key) => key,
        None => {
            return error("ERR key is not a BulkString");
        },
    };
    let data = match bulk(&args[2]) {
        Some(data) => data,
        None => {
            return error("ERR value is not a BulkString");
        },
    };
    read_frame(db.getset(key, data.clone(), now))
}

/// `KEYS *`.
fn keys(args: &Vec<RespFrame>, db: &mut Store, now: u64) -> (reply: RespFrame)
    requires
        old(db).wf(),
    ensures
        final(db).wf(),
        keys_done(views(args@), old(db)@, now, reply@, final(db)@),
{
    if args.len() != 2 {
        return error("ERR wrong number of arguments for 'keys' command");
    }
    let pattern = match bulk(&args[1]) {
        Some(pattern) => as_slice(pattern),
        None => {
            return error("ERR pattern is not a BulkString");
        },
    };
    let star: [u8; 1] = [42];
    assert(star@ =~= seq![42u8]);
    if !slice_eq(pattern, star.as_slice()) {
        return error("ERR only '*' pattern is supported");
    }
    let live_keys = db.keys_all(now);
    let ghost listed = each_contents(live_keys@);
    let mut items: Vec<RespFrame> = Vec::new();
    let mut i: usize = 0;
    assert(bulk_payloads(views(items@)) =~= listed.take(0)) by {
        assert(views(items@) =~= Seq::<FrameView>::empty());
    }
    while i < live_keys.len()
        invariant
            i <= live_keys.len(),
            items.len() == i,
            listed == each_contents(live_keys@),
            forall|j: int| 0 <= j < i ==> #[trigger] views(items@)[j] is BulkString,
            bulk_payloads(views(items@)) == listed.take(i as int),
        decreases live_keys.len() - i,
    {
        let ghost before = items@;
        let item = RespFrame::BulkString(live_keys[i].clone());
        items.push(item);
        proof {
            assert(views(items@).drop_last() =~= views(before));
            assert(views(items@).last() == item@);
            assert(listed.take(i + 1) =~= listed.take(i as int).push(listed[i as int]));
            assert forall|j: int| 0 <= j < i + 1 implies #[trigger] views(items@)[j] is BulkString by {
                if j < i {
                    assert(views(items@)[j] == views(before)[j]);
                }
            }
        }
        i += 1;
    }
    proof {
        assert(listed.take(live_keys.len() as int) =~= listed);
        lemma_array_view(items);
    }
    RespFrame::Array(items)
}

/// Runs the command `name` on `args`, whose first frame is the name as the
/// client sent it.
pub fn execute(name: &str, args: Vec<RespFrame>, db: &mut Store, now: u64) -> (reply: RespFrame)
    requires
        old(db).wf(),
    ensures
        final(db).wf(),
        executed(name@, views(args@), old(db)@, now, reply@, final(db)@),
{
    if text_eq(name, "KEYS") {
        return keys(&args, db, now);
    }
    if text_eq(name, "PING") {
        ping(&args)
    } else if text_eq(name, "ECHO") {
        echo(&args)
    } else if text_eq(name, "COMMAND") {
        let items: Vec<RespFrame> = Vec::new();
        proof {
            lemma_array_view(items);
            assert(views(items@) =~= Seq::<FrameView>::empty());
        }
        RespFrame::Array(items)
    } else if text_eq(name, "SET") {
        set(&args, db, now)
    } else if text_eq(name, "GET") {
        get(&args, db, now)
    } else if text_eq(name, "DEL") {
        del(&args, db, now)
    } else if text_eq(name, "EXISTS") {
        exists_count(&args, db, now)
    } else if text_eq(name, "EXPIRE") {
        expire(&args, db, now)
    } else if text_eq(name, "TTL") {
        ttl(&args, db, now)
    } else if text_eq(name, "INCR") {
        handle_increment(args, db, 1, now)
    } else if text_eq(name, "DECR") {
        handle_increment(args, db, -1, now)
    } else if text_eq(name, "MSET") {
        mset(&args, db)
    } else if text_eq(name, "MGET") {
        mget(&args, db, now)
    } else if text_eq(name, "STRLEN") {
        strlen(&args, db, now)
    } else if text_eq(name, "APPEND") {
        append(&args, db, now)
    } else if text_eq(name, "GETSET") {
        getset(&args, db, now)
    } else {
        let mut message = "ERR unknown command '".to_string();
        message.append(name);
        message.append("'");
        RespFrame::Error(message)
    }
}

/// Answers one request: the reply to `frame`, with the store changed as the
/// command asks.
pub fn handle_command(frame: RespFrame, db: &mut Store, now: u64) -> (reply: RespFrame)
    requires
        old(db).wf(),
    ensures
        final(db).wf(),
        handled(frame@, old(db)@, now, reply@, final(db)@),
{
    let args = match frame {
        RespFrame::Array(args) => args,
        _ => {
            return error("ERR command must be an array");
        },
    };
    proof {
        lemma_array_view(args);
    }
    if args.len() == 0 {
        return error("ERR empty command");
    }
    let name = match &args[0] {
        RespFrame::BulkString(bytes) => text_to_uppercase(
            text_from_utf8_lossy(as_slice(bytes)).as_str(),
        ),
        RespFrame::SimpleString(text) => text_to_uppercase(text.as_str()),
        _ => {
            return error("ERR invalid command format");
        },
    };
    execute(name.as_str(), args, db, now)
}

} // verus!
