//! Error handling: the library's error type and a context extension for
//! results and options.

use vstd::prelude::*;

verus! {

/// The error type of this library's operations.  Failures arriving from
/// outside carry their description as text.
#[derive(Clone, Debug)]
pub enum RustOwlError {
    /// An I/O operation failed.
    Io(String),
    /// A cargo metadata operation failed.
    CargoMetadata(String),
    /// A toolchain operation failed.
    Toolchain(String),
    /// Serialization or deserialization failed.
    Json(String),
    /// A cache operation failed.
    Cache(String),
    /// An editor-protocol operation failed.
    Lsp(String),
    /// A general analysis error.
    Analysis(String),
    /// A configuration error.
    Config(String),
}

impl RustOwlError {
    /// The prefix [`Self::message`] renders for each variant.
    pub open spec fn message_prefix(&self) -> Seq<char> {
        match *self {
            RustOwlError::Io(_) => seq!['I', '/', 'O', ' ', 'e', 'r', 'r', 'o', 'r', ':', ' '],
            RustOwlError::CargoMetadata(_) => seq![
                'C', 'a', 'r', 'g', 'o', ' ', 'm', 'e', 't', 'a', 'd', 'a', 't', 'a', ' ',
                'e', 'r', 'r', 'o', 'r', ':', ' ',
            ],
            RustOwlError::Toolchain(_) => seq![
                'T', 'o', 'o', 'l', 'c', 'h', 'a', 'i', 'n', ' ', 'e', 'r', 'r', 'o', 'r',
                ':', ' ',
            ],
            RustOwlError::Json(_) => seq![
                'J', 'S', 'O', 'N', ' ', 'e', 'r', 'r', 'o', 'r', ':', ' ',
            ],
            RustOwlError::Cache(_) => seq![
                'C', 'a', 'c', 'h', 'e', ' ', 'e', 'r', 'r', 'o', 'r', ':', ' ',
            ],
            RustOwlError::Lsp(_) => seq![
                'L', 'S', 'P', ' ', 'e', 'r', 'r', 'o', 'r', ':', ' ',
            ],
            RustOwlError::Analysis(_) => seq![
                'A', 'n', 'a', 'l', 'y', 's', 'i', 's', ' ', 'e', 'r', 'r', 'o', 'r', ':',
                ' ',
            ],
            RustOwlError::Config(_) => seq![
                'C', 'o', 'n', 'f', 'i', 'g', 'u', 'r', 'a', 't', 'i', 'o', 'n', ' ', 'e',
                'r', 'r', 'o', 'r', ':', ' ',
            ],
        }
    }

    /// The description the error carries.
    pub open spec fn carried_text(&self) -> Seq<char> {
        match *self {
            RustOwlError::Io(m) => m@,
            RustOwlError::CargoMetadata(m) => m@,
            RustOwlError::Toolchain(m) => m@,
            RustOwlError::Json(m) => m@,
            RustOwlError::Cache(m) => m@,
            RustOwlError::Lsp(m) => m@,
            RustOwlError::Analysis(m) => m@,
            RustOwlError::Config(m) => m@,
        }
    }

    /// The error rendered as text: the variant's prefix, then the carried
    /// description.
    pub fn message(&self) -> (r: String)
        ensures
            r@ == self.message_prefix() + self.carried_text(),
    {
        match self {
            RustOwlError::Io(m) => {
                proof {
                    reveal_strlit("I/O error: ");
                    assert("I/O error: "@ =~= self.message_prefix());
                }
                let mut out = "I/O error: ".to_owned();
                out.append(m.as_str());
                out
            },
            RustOwlError::CargoMetadata(m) => {
                proof {
                    reveal_strlit("Cargo metadata error: ");
                    assert("Cargo metadata error: "@ =~= self.message_prefix());
                }
                let mut out = "Cargo metadata error: ".to_owned();
                out.append(m.as_str());
                out
            },
            RustOwlError::Toolchain(m) => {
                proof {
                    reveal_strlit("Toolchain error: ");
                    assert("Toolchain error: "@ =~= self.message_prefix());
                }
                let mut out = "Toolchain error: ".to_owned();
                out.append(m.as_str());
                out
            },
            RustOwlError::Json(m) => {
                proof {
                    reveal_strlit("JSON error: ");
                    assert("JSON error: "@ =~= self.message_prefix());
                }
                let mut out = "JSON error: ".to_owned();
                out.append(m.as_str());
                out
            },
            RustOwlError::Cache(m) => {
                proof {
                    reveal_strlit("Cache error: ");
                    assert("Cache error: "@ =~= self.message_prefix());
                }
                let mut out = "Cache error: ".to_owned();
                out.append(m.as_str());
                out
            },
            RustOwlError::Lsp(m) => {
                proof {
                    reveal_strlit("LSP error: ");
                    assert("LSP error: "@ =~= self.message_prefix());
                }
                let mut out = "LSP error: ".to_owned();
                out.append(m.as_str());
                out
            },
            RustOwlError::Analysis(m) => {
                proof {
                    reveal_strlit("Analysis error: ");
                    assert("Analysis error: "@ =~= self.message_prefix());
                }
                let mut out = "Analysis error: ".to_owned();
                out.append(m.as_str());
                out
            },
            RustOwlError::Config(m) => {
                proof {
                    reveal_strlit("Configuration error: ");
                    assert("Configuration error: "@ =~= self.message_prefix());
                }
                let mut out = "Configuration error: ".to_owned();
                out.append(m.as_str());
                out
            },
        }
    }
}

/// Extension for attaching a plain-text context to a failure: a failed
/// result or an absent option becomes an analysis error carrying the
/// context message.
pub trait ErrorContext<T>: Sized {
    /// Whether the value is a success, and which.
    spec fn spec_ok(&self) -> Option<T>;

    /// Replaces a failure with an analysis error carrying a message the
    /// closure produced.
    fn with_context<F: FnOnce() -> String>(self, f: F) -> (r: Result<T, RustOwlError>)
        requires
            f.requires(()),
        ensures
            r matches Ok(v) ==> self.spec_ok() == Some(v),
            r is Err <==> self.spec_ok() is None,
            r matches Err(e) ==> e matches RustOwlError::Analysis(m) && f.ensures((), m),
    ;

    /// Replaces a failure with an analysis error carrying `msg`.
    fn context(self, msg: &str) -> (r: Result<T, RustOwlError>)
        ensures
            r matches Ok(v) ==> self.spec_ok() == Some(v),
            r is Err <==> self.spec_ok() is None,
            r matches Err(e) ==> e matches RustOwlError::Analysis(m) && m@ == msg@,
    ;
}

impl<T, E> ErrorContext<T> for Result<T, E> {
    open spec fn spec_ok(&self) -> Option<T> {
        match *self {
            Ok(v) => Some(v),
            Err(_) => None,
        }
    }

    fn with_context<F: FnOnce() -> String>(self, f: F) -> (r: Result<T, RustOwlError>) {
        match self {
            Ok(v) => Ok(v),
            Err(_) => Err(RustOwlError::Analysis(f())),
        }
    }

    fn context(self, msg: &str) -> (r: Result<T, RustOwlError>) {
        match self {
            Ok(v) => Ok(v),
            Err(_) => Err(RustOwlError::Analysis(msg.to_owned())),
        }
    }
}

impl<T> ErrorContext<T> for Option<T> {
    open spec fn spec_ok(&self) -> Option<T> {
        *self
    }

    fn with_context<F: FnOnce() -> String>(self, f: F) -> (r: Result<T, RustOwlError>) {
        match self {
            Some(v) => Ok(v),
            None => Err(RustOwlError::Analysis(f())),
        }
    }

    fn context(self, msg: &str) -> (r: Result<T, RustOwlError>) {
        match self {
            Some(v) => Ok(v),
            None => Err(RustOwlError::Analysis(msg.to_owned())),
        }
    }
}

} // verus!
