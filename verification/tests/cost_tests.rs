use meshcore::cost::{Request, Src};

#[test]
fn weakest_source_wins() {
    assert_eq!(Src::Measured.weakest(Src::Derived), Src::Derived);
    assert_eq!(Src::Estimate.weakest(Src::Derived), Src::Estimate);
    assert_eq!(Src::Measured.weakest(Src::Unknown), Src::Unknown);
    assert_eq!(Src::Measured.weakest(Src::Measured), Src::Measured);
    assert_eq!(Src::Derived.weakest(Src::Estimate), Src::Derived.weakest(Src::Estimate).weakest(Src::Estimate));
}

#[test]
fn default_request() {
    let r = Request::default();
    assert_eq!((r.prompt_tokens, r.answer_tokens, r.activation_bytes, r.ubatch), (500, 200, 16384, 512));
}
