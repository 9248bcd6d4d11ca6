pub mod constructor;
pub mod graph;
pub mod stepper;
mod rng;

pub use graph::Edge;
pub use graph::Graph;
pub use graph::Vertex;

pub use constructor::GraphConstructor;
pub use stepper::GraphStepper;
pub use stepper::GraphStepperConfiguration;
pub use stepper::GraphStepperError;
pub use stepper::GraphStepperOut;
pub use stepper::InvalidConfigurationParameter;
