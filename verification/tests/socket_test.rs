use mymesi::thread_socket::new_socket;
use mymesi::thread_socket::ThreadSocket;

#[test]
fn test_socket() {
    let (sa, sb): (ThreadSocket<String>, ThreadSocket<String>) = new_socket();

    // the queues are buffered, so both sides may send before either receives
    sa.send("msg1".to_string());
    sa.send("msg2".to_string());
    sb.send("msg3".to_string());
    sb.send("msg4".to_string());

    let msg = sa.receive();
    println!("a1: {:?}", msg);
    assert_eq!(msg, "msg3");
    let msg = sa.receive();
    println!("a2: {:?}", msg);
    assert_eq!(msg, "msg4");

    let msg = sb.receive();
    println!("b1: {:?}", msg);
    assert_eq!(msg, "msg1");
    let msg = sb.receive();
    println!("b2: {:?}", msg);
    assert_eq!(msg, "msg2");
}
