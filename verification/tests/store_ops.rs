use tinikeyval::command::{parse_command, Arguments, Command};
use tinikeyval::exec::{check_auth, AuthDecision};
use tinikeyval::pubsub::{pubsub_step, PubSubClient, PubSubEvent};
use tinikeyval::rdb::{load_entries, parse_rdb, rdb_image};
use tinikeyval::txn::{exec_batch, transaction_step, TxAction};
use tinikeyval::waiters::{bpop_serve, BPopClient};
use tinikeyval::rdb::{crc64, write_le8, write_size, write_string};
use tinikeyval::resp::decode;
use tinikeyval::exec::Config;
use tinikeyval::list::ListDirection;
use tinikeyval::resp::{encode, RespValue};
use tinikeyval::sorted_set::ZAddEntry;
use tinikeyval::store::MemoryStorage;

fn config() -> Config {
    Config {
        auth: None,
        rdb_dir: b".".to_vec(),
        rdb_filename: b"dump.rdb".to_vec(),
        persist_secs: 60,
        persist_changes: 300,
    }
}

#[test]
fn get_and_set() {
    let mut s = MemoryStorage::new();
    s.set(b"foo".to_vec(), b"bar".to_vec(), None, 0);
    assert_eq!(s.get(&b"foo".to_vec(), 0), Some(b"bar".to_vec()));
    // reply shaping: GET foo is the bulk string, exactly as framed
    let cmd = Command::Get { key: b"foo".to_vec() };
    let reply = s.execute_read(&cmd, &config(), 0).unwrap().unwrap();
    assert_eq!(encode(&reply), b"$3\r\nbar\r\n".to_vec());
    // SET overwrites any type and GET of a missing key is nil
    assert_eq!(s.get(&b"nope".to_vec(), 0), None);
}

#[test]
fn ttl_and_expiry() {
    let mut s = MemoryStorage::new();
    s.set(b"k".to_vec(), b"v".to_vec(), Some(5000), 1000);
    assert_eq!(s.ttl(&b"k".to_vec(), 1000), 5);
    assert_eq!(s.ttl(&b"k".to_vec(), 3000), 3);
    // expired entries read as missing
    assert_eq!(s.get(&b"k".to_vec(), 7000), None);
    assert_eq!(s.ttl(&b"k".to_vec(), 7000), -2);
    // no expiration
    s.set(b"p".to_vec(), b"v".to_vec(), None, 0);
    assert_eq!(s.ttl(&b"p".to_vec(), 9999), -1);
    // sweep removes the stale entry
    let removed = s.cleanup_expired(8000);
    assert_eq!(removed, 1);
    assert_eq!(s.size(8000), 1);
}

#[test]
fn incr_counts_and_rejects() {
    let mut s = MemoryStorage::new();
    assert_eq!(s.incr(&b"c".to_vec(), 0), Ok(1));
    assert_eq!(s.incr(&b"c".to_vec(), 0), Ok(2));
    s.set(b"t".to_vec(), b"abc".to_vec(), None, 0);
    assert_eq!(
        s.incr(&b"t".to_vec(), 0),
        Err(b"ERR value is not an integer or out of range".to_vec())
    );
}

#[test]
fn sorted_set() {
    // ZADD scores 1 foo 5 bar 3 baz, then ZRANGE scores 0 -1 => foo baz bar
    let mut s = MemoryStorage::new();
    let entry = |score: f64, m: &[u8]| ZAddEntry {
        bits: score.to_bits(),
        text: format!("{score}").into_bytes(),
        member: m.to_vec(),
    };
    let n = s
        .zadd(
            &b"scores".to_vec(),
            vec![entry(1.0, b"foo"), entry(5.0, b"bar"), entry(3.0, b"baz")],
            0,
        )
        .unwrap();
    assert_eq!(n, 3);
    let members = s.zrange(&b"scores".to_vec(), 0, -1, 0).unwrap();
    assert_eq!(members, vec![b"foo".to_vec(), b"baz".to_vec(), b"bar".to_vec()]);
    // P6: the same (score, member) again adds nothing
    let n2 = s.zadd(&b"scores".to_vec(), vec![entry(1.0, b"foo")], 0).unwrap();
    assert_eq!(n2, 0);
    // P2: both indices agree in size at every observable point
    assert_eq!(s.zcard(&b"scores".to_vec(), 0), Ok(3));
    assert_eq!(s.zrank(&b"scores".to_vec(), &b"bar".to_vec(), 0), Ok(Some(2)));
    assert_eq!(s.zscore(&b"scores".to_vec(), &b"baz".to_vec(), 0), Ok(Some(b"3".to_vec())));
    // score update re-ranks
    s.zadd(&b"scores".to_vec(), vec![entry(0.5, b"bar")], 0).unwrap();
    let members = s.zrange(&b"scores".to_vec(), 0, -1, 0).unwrap();
    assert_eq!(members, vec![b"bar".to_vec(), b"foo".to_vec(), b"baz".to_vec()]);
    // removal empties the key
    s.zrem(&b"scores".to_vec(), vec![b"bar".to_vec(), b"foo".to_vec(), b"baz".to_vec()], 0)
        .unwrap();
    assert_eq!(s.kind(&b"scores".to_vec(), 0), b"none".to_vec());
}

#[test]
fn lists_push_pop_range() {
    let mut s = MemoryStorage::new();
    let k = b"l".to_vec();
    // RPUSH l a b; LPUSH l z => z a b
    s.push(&k, vec![b"a".to_vec(), b"b".to_vec()], ListDirection::Right, 0).unwrap();
    s.push(&k, vec![b"z".to_vec()], ListDirection::Left, 0).unwrap();
    assert_eq!(s.llen(&k, 0), 3);
    // P3: LLEN equals the length of LRANGE 0 -1
    let all = s.lrange(&k, 0, -1, 0);
    assert_eq!(all.len() as i64, s.llen(&k, 0));
    assert_eq!(all, vec![b"z".to_vec(), b"a".to_vec(), b"b".to_vec()]);
    // negative windows
    assert_eq!(s.lrange(&k, -2, -1, 0), vec![b"a".to_vec(), b"b".to_vec()]);
    // pop from the right, then empty the list: the key goes away
    assert_eq!(s.pop(&k, ListDirection::Right, 1, 0), Some(vec![b"b".to_vec()]));
    assert_eq!(s.pop(&k, ListDirection::Left, 5, 0), Some(vec![b"z".to_vec(), b"a".to_vec()]));
    assert_eq!(s.kind(&k, 0), b"none".to_vec());
}

#[test]
fn sets_add_remove() {
    let mut s = MemoryStorage::new();
    let k = b"s".to_vec();
    assert_eq!(s.sadd(&k, vec![b"a".to_vec(), b"b".to_vec(), b"a".to_vec()], 0), Ok(2));
    // P6: SADD of the same member returns 0 on the second call
    assert_eq!(s.sadd(&k, vec![b"a".to_vec()], 0), Ok(0));
    assert_eq!(s.scard(&k, 0), Ok(2));
    assert_eq!(s.sismember(&k, &b"b".to_vec(), 0), Ok(true));
    assert_eq!(s.srem(&k, vec![b"a".to_vec(), b"b".to_vec()], 0), Ok(2));
    assert_eq!(s.kind(&k, 0), b"none".to_vec());
}

#[test]
fn flushdb_is_idempotent() {
    let mut s = MemoryStorage::new();
    s.set(b"a".to_vec(), b"1".to_vec(), None, 0);
    s.flush();
    assert_eq!(s.size(0), 0);
    s.flush();
    assert_eq!(s.size(0), 0);
}

#[test]
fn type_none_iff_reads_empty() {
    // P1, on a concrete run of commands
    let mut s = MemoryStorage::new();
    let k = b"k".to_vec();
    assert_eq!(s.kind(&k, 0), b"none".to_vec());
    assert_eq!(s.get(&k, 0), None);
    assert!(s.lrange(&k, 0, -1, 0).is_empty());
    assert_eq!(s.smembers(&k, 0), Ok(vec![]));
    assert_eq!(s.zrange(&k, 0, -1, 0), Ok(vec![]));
    s.push(&k, vec![b"x".to_vec()], ListDirection::Right, 0).unwrap();
    assert_eq!(s.kind(&k, 0), b"list".to_vec());
    assert!(!s.lrange(&k, 0, -1, 0).is_empty());
}

#[test]
fn streams_add_range_read() {
    let mut s = MemoryStorage::new();
    let k = b"st".to_vec();
    let data = |f: &[u8], v: &[u8]| vec![(f.to_vec(), v.to_vec())];
    let id1 = s.xadd(&k, &b"1-1".to_vec(), data(b"a", b"1"), 0, 0).unwrap();
    assert_eq!(id1, (1, 1));
    // auto sequence continues at the same millisecond
    let id2 = s.xadd(&k, &b"1".to_vec(), data(b"b", b"2"), 0, 0).unwrap();
    assert_eq!(id2, (1, 2));
    // ids at or below the top are rejected; 0-0 is never valid
    assert!(s.xadd(&k, &b"1-1".to_vec(), data(b"c", b"3"), 0, 0).is_err());
    assert!(s.xadd(&k, &b"0-0".to_vec(), data(b"c", b"3"), 0, 0).is_err());
    assert_eq!(s.xlen(&k, 0), 2);
    let recs = s.xrange(&k, &b"-".to_vec(), &b"+".to_vec(), 0).unwrap();
    assert_eq!(recs.len(), 2);
    assert_eq!((recs[0].ms, recs[0].seq), (1, 1));
    // P8: a read from id 1-1 never includes 1-1 itself
    let (parsed, resp) = s.xread(&vec![(k.clone(), b"1-1".to_vec())], 0).unwrap();
    assert_eq!(parsed[0].1, (1, 1));
    assert_eq!(resp.len(), 1);
    assert_eq!(resp[0].1.len(), 1);
    assert_eq!((resp[0].1[0].ms, resp[0].1[0].seq), (1, 2));
    // a read from the top sees nothing
    let (_, resp2) = s.xread(&vec![(k.clone(), b"1-2".to_vec())], 0).unwrap();
    assert!(resp2.is_empty());
}

#[test]
fn del_and_keys() {
    let mut s = MemoryStorage::new();
    s.set(b"a".to_vec(), b"1".to_vec(), None, 0);
    s.set(b"b".to_vec(), b"2".to_vec(), None, 0);
    assert_eq!(s.keys(0), vec![b"a".to_vec(), b"b".to_vec()]);
    assert!(s.del(&b"a".to_vec()));
    assert!(!s.del(&b"a".to_vec()));
    assert_eq!(s.size(0), 1);
}

#[test]
fn pipeline_two_frames_in_order() {
    // two commands back-to-back yield two replies in the order sent
    let mut s = MemoryStorage::new();
    s.set(b"foo".to_vec(), b"bar".to_vec(), None, 0);
    let wire = b"*1\r\n$4\r\nPING\r\n*2\r\n$3\r\nGET\r\n$3\r\nfoo\r\n".to_vec();
    let mut buf = wire;
    let mut replies: Vec<Vec<u8>> = Vec::new();
    while let Some((frame, used)) = decode(&buf).unwrap() {
        buf.drain(..used);
        let cmd = parse_command(Arguments::from_raw_value(frame).unwrap()).unwrap();
        let reply = match cmd {
            Command::Ping => RespValue::SimpleString(b"PONG".to_vec()),
            _ => s.execute_read(&cmd, &config(), 0).unwrap().unwrap(),
        };
        replies.push(encode(&reply));
    }
    assert_eq!(replies, vec![b"+PONG\r\n".to_vec(), b"$3\r\nbar\r\n".to_vec()]);
}

#[test]
fn pipeline_mixed_with_error() {
    // PING, SET, INVALID, GET: replies come back in order, the bad command
    // as an error frame
    let mut s = MemoryStorage::new();
    let wire = b"*1\r\n$4\r\nPING\r\n*3\r\n$3\r\nSET\r\n$3\r\nfoo\r\n$3\r\nbar\r\n*1\r\n$7\r\nINVALID\r\n*2\r\n$3\r\nGET\r\n$3\r\nfoo\r\n".to_vec();
    let mut buf = wire;
    let mut replies: Vec<Vec<u8>> = Vec::new();
    while let Some((frame, used)) = decode(&buf).unwrap() {
        buf.drain(..used);
        let reply = match parse_command(Arguments::from_raw_value(frame).unwrap()) {
            Err(e) => RespValue::Error(e),
            Ok(Command::Ping) => RespValue::SimpleString(b"PONG".to_vec()),
            Ok(Command::SetKv { key, val, ttl }) => {
                s.set(key, val, ttl, 0);
                RespValue::SimpleString(b"OK".to_vec())
            },
            Ok(cmd) => s.execute_read(&cmd, &config(), 0).unwrap().unwrap(),
        };
        replies.push(encode(&reply));
    }
    assert_eq!(replies.len(), 4);
    assert_eq!(replies[0], b"+PONG\r\n".to_vec());
    assert_eq!(replies[1], b"+OK\r\n".to_vec());
    assert_eq!(replies[2][0], b'-');
    assert_eq!(replies[3], b"$3\r\nbar\r\n".to_vec());
}

#[test]
fn snapshot_bytes_round_trip_through_checksum() {
    // a saved string section parses back: header, sizes, entry, checksum
    let mut out: Vec<u8> = Vec::new();
    out.extend_from_slice(b"REDIS0011");
    out.push(0xFE);
    assert!(write_size(&mut out, 0));
    out.push(0xFB);
    assert!(write_size(&mut out, 1));
    assert!(write_size(&mut out, 0));
    out.push(0x00);
    assert!(write_string(&mut out, &b"foo".to_vec()));
    assert!(write_string(&mut out, &b"bar".to_vec()));
    out.push(0xFF);
    let sum = crc64(&out);
    write_le8(&mut out, sum);
    // the trailing eight bytes are the digest of everything before them
    let (payload, tail) = out.split_at(out.len() - 8);
    let expect = crc64(payload).to_le_bytes();
    assert_eq!(tail, &expect);
    // and the entry bytes sit where the format says
    assert_eq!(&out[9..13], &[0xFE, 0x00, 0xFB, 0x01]);
    assert_eq!(&out[14..18], &[0x00, 0x03, b'f', b'o']);
}

#[test]
fn transaction_batch_runs_in_order() {
    // queue SET and GET through the step machine, then run the batch
    let set_frame = tinikeyval::resp::decode(
        &b"*3\r\n$3\r\nSET\r\n$3\r\nfoo\r\n$3\r\nbar\r\n".to_vec(),
    )
    .unwrap()
    .unwrap()
    .0;
    let get_frame = tinikeyval::resp::decode(&b"*2\r\n$3\r\nGET\r\n$3\r\nfoo\r\n".to_vec())
        .unwrap()
        .unwrap()
        .0;
    let exec_frame = tinikeyval::resp::decode(&b"*1\r\n$4\r\nEXEC\r\n".to_vec())
        .unwrap()
        .unwrap()
        .0;
    let mut queue: Vec<(Command, Vec<ZAddEntry>)> = Vec::new();
    for frame in [set_frame, get_frame] {
        match transaction_step(frame) {
            TxAction::Queue(c) => queue.push((c, Vec::new())),
            _ => panic!("expected a queued command"),
        }
    }
    assert!(matches!(transaction_step(exec_frame), TxAction::ExecNow));
    let mut s = MemoryStorage::new();
    let (reply, changes) = exec_batch(&mut s, queue, &config(), 0, 0);
    assert_eq!(changes, 1);
    assert_eq!(encode(&reply), b"*2\r\n+OK\r\n$3\r\nbar\r\n".to_vec());
}

#[test]
fn blpop_wakeup_serves_first_waiter() {
    // client A waits on q, then an RPUSH of "hello" arrives: A alone is
    // served and the wire frame is *2 q hello
    let mut queue = vec![
        BPopClient { id: 1, key: b"q".to_vec(), dir: ListDirection::Left },
        BPopClient { id: 2, key: b"q".to_vec(), dir: ListDirection::Left },
    ];
    let closed = vec![false, false];
    let mut list = vec![b"hello".to_vec()];
    let served = bpop_serve(&mut queue, &closed, &b"q".to_vec(), &mut list);
    assert_eq!(served, vec![(1, b"hello".to_vec())]);
    assert_eq!(queue.len(), 1);
    assert_eq!(queue[0].id, 2);
    assert!(list.is_empty());
    let frame = RespValue::Array(vec![
        RespValue::String(b"q".to_vec()),
        RespValue::String(served[0].1.clone()),
    ]);
    assert_eq!(encode(&frame), b"*2\r\n$1\r\nq\r\n$5\r\nhello\r\n".to_vec());
}

#[test]
fn pubsub_fan_out_in_order() {
    // A subscribes to foo and bar; messages on foo then bar arrive in order
    let mut clients = vec![PubSubClient { id: 7, channels: Vec::new(), open: true }];
    let (confirms, _) = pubsub_step(
        &mut clients,
        PubSubEvent::Subscribe(7, vec![b"foo".to_vec(), b"bar".to_vec()]),
    );
    assert_eq!(confirms.len(), 2);
    assert_eq!(
        encode(&confirms[0].1),
        b"*3\r\n$9\r\nsubscribe\r\n$3\r\nfoo\r\n:1\r\n".to_vec()
    );
    assert_eq!(
        encode(&confirms[1].1),
        b"*3\r\n$9\r\nsubscribe\r\n$3\r\nbar\r\n:2\r\n".to_vec()
    );
    let (outs1, n1) = pubsub_step(
        &mut clients,
        PubSubEvent::Message(b"foo".to_vec(), b"Hello".to_vec()),
    );
    let (outs2, n2) = pubsub_step(
        &mut clients,
        PubSubEvent::Message(b"bar".to_vec(), b"Goodbye".to_vec()),
    );
    assert_eq!((n1, n2), (1, 1));
    assert_eq!(outs1[0].0, 7);
    assert_eq!(
        encode(&outs1[0].1),
        b"*3\r\n$7\r\nmessage\r\n$3\r\nfoo\r\n$5\r\nHello\r\n".to_vec()
    );
    assert_eq!(
        encode(&outs2[0].1),
        b"*3\r\n$7\r\nmessage\r\n$3\r\nbar\r\n$7\r\nGoodbye\r\n".to_vec()
    );
    // a closed subscriber receives nothing and is not counted
    clients[0].open = false;
    let (outs3, n3) = pubsub_step(
        &mut clients,
        PubSubEvent::Message(b"foo".to_vec(), b"late".to_vec()),
    );
    assert!(outs3.is_empty());
    assert_eq!(n3, 0);
}

#[test]
fn snapshot_round_trip_restores_the_store() {
    // SET foo=bar, SADD s a b, LPUSH l x y; save; reload; reads agree
    let mut s = MemoryStorage::new();
    s.set(b"foo".to_vec(), b"bar".to_vec(), None, 0);
    s.sadd(&b"s".to_vec(), vec![b"a".to_vec(), b"b".to_vec()], 0).unwrap();
    s.push(&b"l".to_vec(), vec![b"x".to_vec(), b"y".to_vec()], ListDirection::Left, 0)
        .unwrap();
    s.set(b"gone".to_vec(), b"soon".to_vec(), Some(500), 0);
    let image = rdb_image(&s, 0, 1_000_000, 123);
    let file = parse_rdb(&image).expect("the image parses back");
    assert_eq!(file.version, b"0011".to_vec());
    // reload as if the process restarted two seconds later
    let restored = load_entries(file, 1_002_000, 0);
    assert_eq!(restored.get(&b"foo".to_vec(), 0), Some(b"bar".to_vec()));
    assert_eq!(restored.kind(&b"s".to_vec(), 0), b"set".to_vec());
    assert_eq!(restored.sismember(&b"s".to_vec(), &b"a".to_vec(), 0), Ok(true));
    assert_eq!(restored.scard(&b"s".to_vec(), 0), Ok(2));
    assert_eq!(
        restored.lrange(&b"l".to_vec(), 0, -1, 0),
        vec![b"y".to_vec(), b"x".to_vec()]
    );
    // the entry that expired while the server was down is gone
    assert_eq!(restored.get(&b"gone".to_vec(), 0), None);
    // a corrupted byte fails the checksum
    let mut bad = image.clone();
    let n = bad.len();
    bad[n - 20] ^= 0xFF;
    assert!(parse_rdb(&bad).is_err());
}

#[test]
fn auth_gate_decisions() {
    let want = Some(b"sekret".to_vec());
    let auth_ok = Command::Auth { pass: b"sekret".to_vec() };
    let auth_bad = Command::Auth { pass: b"nope".to_vec() };
    let other = Command::Ping;
    assert!(matches!(check_auth(&want, false, &auth_ok), AuthDecision::Accept));
    assert!(matches!(check_auth(&want, false, &auth_bad), AuthDecision::WrongPass));
    assert!(matches!(check_auth(&want, false, &other), AuthDecision::NeedAuth));
    assert!(matches!(check_auth(&want, true, &other), AuthDecision::Proceed));
    assert!(matches!(check_auth(&None, false, &other), AuthDecision::Proceed));
}

#[test]
fn xadd_rejections_use_the_full_messages() {
    let mut s = MemoryStorage::new();
    let k = b"st".to_vec();
    s.xadd(&k, &b"5-5".to_vec(), vec![(b"f".to_vec(), b"v".to_vec())], 0, 0).unwrap();
    assert_eq!(
        s.xadd(&k, &b"0-0".to_vec(), vec![(b"f".to_vec(), b"v".to_vec())], 0, 0),
        Err(b"ERR The ID specified in XADD must be greater than 0-0".to_vec())
    );
    assert_eq!(
        s.xadd(&k, &b"5-5".to_vec(), vec![(b"f".to_vec(), b"v".to_vec())], 0, 0),
        Err(
            b"ERR The ID specified in XADD is equal or smaller than the target stream top item"
                .to_vec()
        )
    );
    assert_eq!(
        s.xadd(&k, &b"bogus".to_vec(), vec![(b"f".to_vec(), b"v".to_vec())], 0, 0),
        Err(b"ERR invalid ID".to_vec())
    );
}
