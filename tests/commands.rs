use simple_redis::{
    Backend, BulkString, Echo, Get, HGet, HGetAll, HMGet, HSet, RespArray, RespFrame, RespNull,
    SAdd, SIsMember, SetCommand, SimpleString,
};

fn bulk(s: &str) -> RespFrame {
    RespFrame::BulkString(BulkString::new(s.as_bytes().to_vec()))
}

fn request(words: &[&str]) -> RespArray {
    RespArray::new(words.iter().map(|w| bulk(w)).collect())
}

fn resp_ok() -> RespFrame {
    RespFrame::SimpleString(SimpleString::new("OK".to_string()))
}

#[test]
fn test_echo_try_from() {
    let result = Echo::try_from(request(&["echo", "hello"])).unwrap();
    assert_eq!(result.message, "hello".to_string());
}

#[test]
fn test_echo_command() {
    let backend = Backend::new();
    let echo = Echo { message: "hello".to_string() };
    let result = echo.execute(&backend);
    assert_eq!(result, bulk("hello"));
}

#[test]
fn test_hget_try_from() {
    let result = HGet::try_from(request(&["hget", "map", "hello"])).unwrap();
    assert_eq!(result.key, "map".to_string());
    assert_eq!(result.field, "hello".to_string());
}

#[test]
fn test_hgetall_try_from() {
    let result = HGetAll::try_from(request(&["hgetall", "map"])).unwrap();
    assert_eq!(result.key, "map".to_string());
}

#[test]
fn test_hset_try_from() {
    let result = HSet::try_from(request(&["hset", "map", "hello", "world"])).unwrap();
    assert_eq!(result.key, "map".to_string());
    assert_eq!(result.field, "hello".to_string());
    assert_eq!(result.value, bulk("world"));
}

#[test]
fn test_hmget_try_from() {
    let result = HMGet::try_from(request(&["hmget", "map", "hello", "world"])).unwrap();
    assert_eq!(result.key, "map".to_string());
    assert_eq!(result.fields, vec!["hello".to_string(), "world".to_string()]);
}

#[test]
fn test_hget_hset_hgetall_hmget_command() {
    let backend = Backend::new();

    let hset = HSet { key: "map".to_string(), field: "hello".to_string(), value: bulk("world") };
    assert_eq!(hset.execute(&backend), resp_ok());

    let hget = HGet { key: "map".to_string(), field: "hello".to_string() };
    assert_eq!(hget.execute(&backend), bulk("world"));

    let hset = HSet { key: "map".to_string(), field: "hello1".to_string(), value: bulk("world1") };
    assert_eq!(hset.execute(&backend), resp_ok());

    let hgetall = HGetAll { key: "map".to_string() };
    let result = hgetall.execute(&backend);
    let expected = RespFrame::Array(RespArray::new(vec![
        bulk("hello"),
        bulk("world"),
        bulk("hello1"),
        bulk("world1"),
    ]));
    let expected1 = RespFrame::Array(RespArray::new(vec![
        bulk("hello1"),
        bulk("world1"),
        bulk("hello"),
        bulk("world"),
    ]));
    assert!(result == expected || result == expected1);

    let hmget = HMGet {
        key: "map".to_string(),
        fields: vec!["hello".to_string(), "hello1".to_string(), "world".to_string()],
    };
    let result = hmget.execute(&backend);
    let expected = RespFrame::Array(RespArray::new(vec![
        bulk("world"),
        bulk("world1"),
        RespFrame::Null(RespNull),
    ]));
    assert_eq!(result, expected);
}

#[test]
fn test_try_from_sadd() {
    let cmd = SAdd::try_from(request(&["sadd", "key", "member1", "member2"])).unwrap();
    assert_eq!(cmd.key, "key");
    assert_eq!(cmd.members, vec!["member1", "member2"]);
}

#[test]
fn test_try_from_sismember() {
    let cmd = SIsMember::try_from(request(&["sismember", "key", "member"])).unwrap();
    assert_eq!(cmd.key, "key");
    assert_eq!(cmd.member, "member");
}

#[test]
fn test_sadd_sismember_execute() {
    let backend = Backend::new();
    let cmd = SAdd {
        key: "key".to_string(),
        members: vec!["member1".to_string(), "member2".to_string()],
    };
    assert_eq!(cmd.execute(&backend), RespFrame::Integer(2));

    let cmd = SAdd {
        key: "key".to_string(),
        members: vec!["member1".to_string(), "member3".to_string()],
    };
    assert_eq!(cmd.execute(&backend), RespFrame::Integer(1));

    let cmd = SIsMember { key: "key".to_string(), member: "member1".to_string() };
    assert_eq!(cmd.execute(&backend), RespFrame::Integer(1));

    let cmd = SIsMember { key: "key".to_string(), member: "member".to_string() };
    assert_eq!(cmd.execute(&backend), RespFrame::Integer(0));
}

#[test]
fn test_get_try_from() {
    let result = Get::try_from(request(&["get", "hello"])).unwrap();
    assert_eq!(result.key, "hello".to_string());
}

#[test]
fn test_set_try_from() {
    let result = SetCommand::try_from(request(&["set", "hello", "world"])).unwrap();
    assert_eq!(result.key, "hello".to_string());
    assert_eq!(result.value, bulk("world"));
}

#[test]
fn test_set_get_command() {
    let backend = Backend::new();
    let set = SetCommand { key: "hello".to_string(), value: bulk("world") };
    assert_eq!(set.execute(&backend), resp_ok());

    let get = Get { key: "hello".to_string() };
    assert_eq!(get.execute(&backend), bulk("world"));
}
