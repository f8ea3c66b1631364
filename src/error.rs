use vstd::prelude::*;
use vstd::string::*;

use crate::browser::BrowserChoice;

verus! {

/// What the library's operations report when they cannot do their work.
#[derive(Debug, PartialEq, Eq)]
pub enum AliasError {
    /// The alias is not in the table.
    NotFound(String),
    /// The browser cannot be asked for by name on Linux.
    BrowserUnavailable(BrowserChoice),
    /// No way of opening a URL is known on this platform.
    UnsupportedPlatform,
}

/// The name a browser goes by.
pub open spec fn browser_name(b: BrowserChoice) -> Seq<char> {
    match b {
        BrowserChoice::Default => "The default browser"@,
        BrowserChoice::Safari => "Safari"@,
        BrowserChoice::Chrome => "Chrome"@,
        BrowserChoice::Firefox => "Firefox"@,
        BrowserChoice::Brave => "Brave"@,
    }
}

/// The line that reports an error.
pub open spec fn message_of(e: AliasError) -> Seq<char> {
    match e {
        AliasError::NotFound(s) => "Alias '"@ + s@ + "' not found"@,
        AliasError::BrowserUnavailable(b) => browser_name(b) + " is not available on Linux"@,
        AliasError::UnsupportedPlatform => "Unsupported operating system"@,
    }
}

impl AliasError {
    /// The line that reports this error to a person.
    pub fn message(&self) -> (r: String)
        ensures
            r@ == message_of(*self),
    {
        match self {
            AliasError::NotFound(s) => {
                let mut r = "Alias '".to_owned();
                r.append(s.as_str());
                r.append("' not found");
                r
            },
            AliasError::BrowserUnavailable(b) => {
                let name = match b {
                    BrowserChoice::Default => "The default browser",
                    BrowserChoice::Safari => "Safari",
                    BrowserChoice::Chrome => "Chrome",
                    BrowserChoice::Firefox => "Firefox",
                    BrowserChoice::Brave => "Brave",
                };
                let mut r = name.to_owned();
                r.append(" is not available on Linux");
                r
            },
            AliasError::UnsupportedPlatform => "Unsupported operating system".to_owned(),
        }
    }
}

} // verus!
