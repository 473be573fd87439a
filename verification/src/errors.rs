use vstd::prelude::*;

verus! {

/// The error taxonomy of the control plane.  Engine failures are fatal to
/// the in-flight request; metrics failures are transient for one container
/// in one tick; persistence failures are advisory.
#[derive(Debug)]
pub enum RuntimeError {
    /// A user function failed to execute.
    Exec(String),
    /// The container engine or another system collaborator refused an
    /// operation.
    System(String),
    /// The key-value store behind persistence failed.
    RedisError(String),
    /// Pool state could not be serialized or deserialized.
    SerializationError(String),
}

pub type AppResult<T> = Result<T, RuntimeError>;

impl RuntimeError {
    /// A human-readable rendering of the error, in place of `Display`.
    pub fn message(&self) -> (r: String)
        ensures
            match self {
                RuntimeError::Exec(e) => r@ == e@,
                RuntimeError::System(e) => r@ == "System Error: "@ + e@,
                RuntimeError::RedisError(e) => r@ == "Redis Error: "@ + e@,
                RuntimeError::SerializationError(e) => r@ == "Serialization Error: "@ + e@,
            },
    {
        match self {
            RuntimeError::Exec(e) => e.clone(),
            RuntimeError::System(e) => String::from_str("System Error: ").concat(e.as_str()),
            RuntimeError::RedisError(e) => String::from_str("Redis Error: ").concat(e.as_str()),
            RuntimeError::SerializationError(e) => {
                String::from_str("Serialization Error: ").concat(e.as_str())
            },
        }
    }
}

} // verus!
