use honeycomb_sink::batcher::BatcherSettings;
use honeycomb_sink::sink::{HoneycombRequestBuilder, HoneycombSink};

#[test]
fn sink_carries_its_capabilities_unchanged() {
    let settings = BatcherSettings { max_bytes: 1024, max_events: 10, max_linger_ms: 500 };
    let builder = HoneycombRequestBuilder { max_body_bytes: 4096 };
    let sink = HoneycombSink::new("service-token", settings, builder);
    let (service, batch_settings, request_builder) = sink.into_parts();
    assert_eq!(service, "service-token");
    assert_eq!(batch_settings, settings);
    assert_eq!(request_builder, builder);
}
