use std::sync::Arc;

use shred_decoder::builder::port_range;
use shred_decoder::{
    DecoderError, DecoderStats, ShredDecoderBuilder, ShredHandler, TransactionEvent,
};

#[derive(Debug)]
struct Ignore;

impl ShredHandler for Ignore {
    fn handle_transaction(&self, _event: &TransactionEvent<'_>) {}
}

fn builder() -> ShredDecoderBuilder<String, Ignore> {
    ShredDecoderBuilder::new()
}

#[test]
fn settings_have_defaults() {
    let settings = builder().bind("a:1".to_string()).handler(Ignore).build().ok().unwrap();
    assert_eq!(settings.bind, "a:1");
    assert_eq!(settings.receive_threads, 4);
    assert_eq!(settings.recovery_workers, 8);
    assert_eq!(settings.recv_buffer_bytes, 262_144);
}

#[test]
fn the_default_builder_is_a_new_one() {
    let builder: ShredDecoderBuilder<u16, Ignore> = ShredDecoderBuilder::default();
    let settings = builder.bind(1).handler(Ignore).build().ok().unwrap();
    assert_eq!((settings.receive_threads, settings.recovery_workers), (4, 8));
}

#[test]
fn settings_can_be_chosen() {
    let settings = builder()
        .bind("a:1".to_string())
        .receive_threads(2)
        .recovery_workers(3)
        .recv_buffer_bytes(0)
        .handler(Ignore)
        .build()
        .ok()
        .unwrap();
    assert_eq!(settings.receive_threads, 2);
    assert_eq!(settings.recovery_workers, 3);
    assert_eq!(settings.recv_buffer_bytes, 0);
}

#[test]
fn there_is_one_thread_of_each_kind_at_least() {
    let settings = builder()
        .bind("a:1".to_string())
        .receive_threads(0)
        .recovery_workers(0)
        .handler(Ignore)
        .build()
        .ok()
        .unwrap();
    assert_eq!((settings.receive_threads, settings.recovery_workers), (1, 1));
}

#[test]
fn handlers_can_be_shared() {
    let handler: Arc<dyn ShredHandler> = Arc::new(Ignore);
    let builder: ShredDecoderBuilder<u16, dyn ShredHandler> = ShredDecoderBuilder::new();
    let settings = builder.bind(1).handler_arc(handler.clone()).build().ok().unwrap();
    assert!(Arc::ptr_eq(&settings.handler, &handler));
}

#[test]
fn an_address_is_required() {
    assert!(matches!(builder().handler(Ignore).build(), Err(DecoderError::MissingBind)));
    assert!(matches!(builder().build(), Err(DecoderError::MissingBind)));
}

#[test]
fn a_handler_is_required() {
    let r = builder().bind("a:1".to_string()).build();
    assert!(matches!(r, Err(DecoderError::MissingHandler)));
}

#[test]
fn sockets_share_one_port() {
    assert_eq!(port_range(8_001), (8_001, 8_002));
    assert_eq!(port_range(0), (0, 1));
    assert_eq!(port_range(65_534), (65_534, 65_535));
}

#[test]
fn errors_have_texts() {
    let bind = DecoderError::Bind {
        addr: "0.0.0.0:1".to_string(),
        source: std::io::Error::other("in use"),
    };
    assert_eq!(bind.message("in use"), "failed to bind UDP socket on 0.0.0.0:1: in use");
    assert_eq!(
        DecoderError::MissingHandler.message(""),
        "handler not provided — call builder.handler(...) before build()"
    );
    assert_eq!(
        DecoderError::MissingBind.message(""),
        "bind address not provided — call builder.bind(...) before build()"
    );
    let io = DecoderError::Io(std::io::Error::other("broken"));
    assert_eq!(io.message("broken"), "io error: broken");
    assert_eq!(DecoderError::Other("why".to_string()).message("unused"), "other: why");
}

#[test]
fn counters_start_at_zero_and_wrap() {
    let mut stats = DecoderStats::default();
    assert_eq!(stats.recovered_count, 0);
    stats.add_recovered(u64::MAX);
    stats.add_recovered(3);
    assert_eq!(stats.recovered_count, 2);
    stats.add_entries(2, 5);
    stats.add_recovery_error();
    stats.add_decode_error();
    assert_eq!(
        stats,
        DecoderStats {
            recovered_count: 2,
            entry_count: 2,
            txn_count: 5,
            fec_recovery_error_count: 1,
            bincode_deserialize_error_count: 1,
        }
    );
}
