//! The built-in rules.
pub mod delimiter_smuggle;
pub mod encoded_payload;
pub mod format_break;
pub mod role_override;
pub mod secret_extract;
pub mod tool_call_inject;

pub use delimiter_smuggle::DelimiterSmuggle;
pub use encoded_payload::EncodedPayload;
pub use format_break::FormatBreak;
pub use role_override::RoleOverride;
pub use secret_extract::SecretExtract;
pub use tool_call_inject::ToolCallInject;
