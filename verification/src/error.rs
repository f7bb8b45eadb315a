use vstd::prelude::*;

verus! {

/// Main error type of the library.
#[derive(Debug, Clone)]
#[allow(inconsistent_fields)]
pub enum MLError {
    /// Shape mismatch between tensors
    ShapeMismatch { expected: String, got: String, operation: String },
    /// Invalid dimensions for operation
    DimensionError { expected: usize, got: usize, operation: String },
    /// Gradient computation error
    GradientError(String),
    /// Lock acquisition failure
    LockError(String),
    /// Invalid tensor operation
    InvalidOperation(String),
    /// Distribution/random number generation error
    DistributionError(String),
    /// I/O error
    IoError(String),
    /// Serialization error
    SerializationError(String),
    /// Data loading error
    DataError(String),
    /// Invalid configuration
    ConfigError(String),
}

/// The character of decimal digit `d`.
pub open spec fn digit_char(d: int) -> char {
    (48 + d) as char
}

/// The decimal numeral of `n`, without leading zeros.
pub open spec fn decimal(n: nat) -> Seq<char>
    decreases n,
{
    if n < 10 {
        seq![digit_char(n as int)]
    } else {
        decimal(n / 10).push(digit_char((n % 10) as int))
    }
}

/// The text that describes `e`.
pub open spec fn describe(e: MLError) -> Seq<char> {
    match e {
        MLError::ShapeMismatch { expected, got, operation } => "Shape mismatch in "@ + operation@ + ": expected "@
            + expected@ + ", got "@ + got@,
        MLError::DimensionError { expected, got, operation } => "Dimension error in "@ + operation@
            + ": expected "@ + decimal(expected as nat) + " dimensions, got "@ + decimal(got as nat),
        MLError::GradientError(msg) => "Gradient error: "@ + msg@,
        MLError::LockError(msg) => "Lock acquisition failed: "@ + msg@,
        MLError::InvalidOperation(msg) => "Invalid operation: "@ + msg@,
        MLError::DistributionError(msg) => "Distribution error: "@ + msg@,
        MLError::IoError(msg) => "I/O error: "@ + msg@,
        MLError::SerializationError(msg) => "Serialization error: "@ + msg@,
        MLError::DataError(msg) => "Data error: "@ + msg@,
        MLError::ConfigError(msg) => "Configuration error: "@ + msg@,
    }
}

fn digit_str(d: usize) -> (s: &'static str)
    requires
        d < 10,
    ensures
        s@ == seq![digit_char(d as int)],
{
    match d {
        0 => {
            proof {
                reveal_strlit("0");
            }
            "0"
        },
        1 => {
            proof {
                reveal_strlit("1");
            }
            "1"
        },
        2 => {
            proof {
                reveal_strlit("2");
            }
            "2"
        },
        3 => {
            proof {
                reveal_strlit("3");
            }
            "3"
        },
        4 => {
            proof {
                reveal_strlit("4");
            }
            "4"
        },
        5 => {
            proof {
                reveal_strlit("5");
            }
            "5"
        },
        6 => {
            proof {
                reveal_strlit("6");
            }
            "6"
        },
        7 => {
            proof {
                reveal_strlit("7");
            }
            "7"
        },
        8 => {
            proof {
                reveal_strlit("8");
            }
            "8"
        },
        _ => {
            proof {
                reveal_strlit("9");
            }
            "9"
        },
    }
}

/// Appends the decimal numeral of `n` to `s`.
fn push_decimal(s: &mut String, n: usize)
    ensures
        final(s)@ == old(s)@ + decimal(n as nat),
    decreases n,
{
    if n >= 10 {
        push_decimal(s, n / 10);
    }
    s.append(digit_str(n % 10));
    proof {
        if n < 10 {
            assert(n % 10 == n);
        }
    }
    assert(s@ =~= old(s)@ + decimal(n as nat));
}

impl MLError {
    /// The text that describes the error.
    pub fn message(&self) -> (m: String)
        ensures
            m@ == describe(*self),
    {
        let mut s: String;
        match self {
            MLError::ShapeMismatch { expected, got, operation } => {
                s = String::from_str("Shape mismatch in ");
                s.append(operation.as_str());
                s.append(": expected ");
                s.append(expected.as_str());
                s.append(", got ");
                s.append(got.as_str());
            },
            MLError::DimensionError { expected, got, operation } => {
                s = String::from_str("Dimension error in ");
                s.append(operation.as_str());
                s.append(": expected ");
                push_decimal(&mut s, *expected);
                s.append(" dimensions, got ");
                push_decimal(&mut s, *got);
            },
            MLError::GradientError(msg) => {
                s = String::from_str("Gradient error: ");
                s.append(msg.as_str());
            },
            MLError::LockError(msg) => {
                s = String::from_str("Lock acquisition failed: ");
                s.append(msg.as_str());
            },
            MLError::InvalidOperation(msg) => {
                s = String::from_str("Invalid operation: ");
                s.append(msg.as_str());
            },
            MLError::DistributionError(msg) => {
                s = String::from_str("Distribution error: ");
                s.append(msg.as_str());
            },
            MLError::IoError(msg) => {
                s = String::from_str("I/O error: ");
                s.append(msg.as_str());
            },
            MLError::SerializationError(msg) => {
                s = String::from_str("Serialization error: ");
                s.append(msg.as_str());
            },
            MLError::DataError(msg) => {
                s = String::from_str("Data error: ");
                s.append(msg.as_str());
            },
            MLError::ConfigError(msg) => {
                s = String::from_str("Configuration error: ");
                s.append(msg.as_str());
            },
        }
        s
    }
}

} // verus!
