//! Errors of the code-graph provider, as its users see them.
use vstd::prelude::*;
use crate::text::{cat2, cat3, cat5};

verus! {

#[derive(Debug, Clone, PartialEq, Eq)]
pub enum ProviderError {
    /// The provider's executable could not be started.
    Execute { command: String, source: String },
    /// The provider ran and reported failure.
    Command { operation: String, status: String, detail: String },
    /// The provider's output is not in the expected shape.
    Compatibility(String),
    /// The provider did not answer in time.
    Timeout(String),
}

pub open spec fn provider_error_text(e: ProviderError) -> Seq<char> {
    match e {
        ProviderError::Execute { command, source } => "failed to execute GitNexus `"@ + command@
            + "`; install it or set GITNEXUS_BIN/provider.command: "@ + source@,
        ProviderError::Command { operation, status, detail } => "GitNexus "@ + operation@ + " failed ("@
            + status@ + "): "@ + detail@
            + ". Check provider.repo and run `gitnexus analyze --index-only`"@,
        ProviderError::Compatibility(detail) => compatibility_text(detail@),
        ProviderError::Timeout(operation) => "GitNexus "@ + operation@
            + " timed out; check the executable/index and rerun `gitnexus analyze --index-only`"@,
    }
}

pub open spec fn compatibility_text(detail: Seq<char>) -> Seq<char> {
    "unsupported GitNexus cypher output; expected JSON object with `markdown` and `row_count` and a valid Markdown table: "@
        + detail
        + ". Check the GitNexus CLI version and adapter compatibility"@
}

/// The error for provider output of an unexpected shape.
pub fn compatibility(detail: &str) -> (r: ProviderError)
    ensures
        r matches ProviderError::Compatibility(d) && d@ == detail@,
{
    ProviderError::Compatibility(String::from_str(detail))
}

impl ProviderError {
    /// The message a user sees for the error.
    pub fn message(&self) -> (r: String)
        ensures
            r@ == provider_error_text(*self),
    {
        match self {
            ProviderError::Execute { command, source } => {
                let head = cat3("failed to execute GitNexus `", command.as_str(), "`; install it or set GITNEXUS_BIN/provider.command: ");
                cat2(head.as_str(), source.as_str())
            },
            ProviderError::Command { operation, status, detail } => {
                let head = cat5("GitNexus ", operation.as_str(), " failed (", status.as_str(), "): ");
                cat3(head.as_str(), detail.as_str(), ". Check provider.repo and run `gitnexus analyze --index-only`")
            },
            ProviderError::Compatibility(detail) => cat3(
                "unsupported GitNexus cypher output; expected JSON object with `markdown` and `row_count` and a valid Markdown table: ",
                detail.as_str(),
                ". Check the GitNexus CLI version and adapter compatibility",
            ),
            ProviderError::Timeout(operation) => cat3(
                "GitNexus ",
                operation.as_str(),
                " timed out; check the executable/index and rerun `gitnexus analyze --index-only`",
            ),
        }
    }
}

} // verus!
