//! How the exchange is set up.
use vstd::prelude::*;

verus! {

#[derive(Debug, Clone, Copy, PartialEq, Eq, Structural)]
pub enum ProducerType {
    Single,
    Multi,
}

#[derive(Debug, Clone, Copy, PartialEq, Eq, Structural)]
pub enum WaitStrategyType {
    BusySpin,
    Yielding,
    Blocking,
    Sleeping,
}

#[derive(Debug, Clone, Copy, PartialEq, Eq, Structural)]
pub struct ExchangeConfig {
    pub ring_buffer_size: usize,
    pub matching_engines_num: usize,
    pub risk_engines_num: usize,
    pub producer_type: ProducerType,
    pub wait_strategy: WaitStrategyType,
}

impl Default for ExchangeConfig {
    fn default() -> (r: ExchangeConfig)
        ensures
            r == (ExchangeConfig {
                ring_buffer_size: 65536,
                matching_engines_num: 1,
                risk_engines_num: 1,
                producer_type: ProducerType::Single,
                wait_strategy: WaitStrategyType::BusySpin,
            }),
    {
        ExchangeConfig {
            ring_buffer_size: 64 * 1024,
            matching_engines_num: 1,
            risk_engines_num: 1,
            producer_type: ProducerType::Single,
            wait_strategy: WaitStrategyType::BusySpin,
        }
    }
}

} // verus!
