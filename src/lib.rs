//! An observable state container: it holds the latest value of a state,
//! lets callers replace it, and calls the registered callbacks, in
//! registration order, with every new value. A new subscriber is called at
//! once with the value held.
//!
//! `service` holds the executable container, `model` its abstract state and
//! what each operation does to it, and `laws` what holds of every run.
pub mod laws;
pub mod model;
pub mod service;

pub use model::ServiceModel;
pub use service::{StateService, StateServiceSubscription, Subscriber, Subscription};
