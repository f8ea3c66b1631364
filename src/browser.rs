use vstd::prelude::*;

use crate::error::AliasError;

verus! {

/// The browser that a URL is opened in.
#[derive(Debug, Clone, Copy, PartialEq, Eq, Structural)]
pub enum BrowserChoice {
    Default,
    Safari,
    Chrome,
    Firefox,
    Brave,
}

/// The operating system that a command is chosen for.
#[derive(Debug, Clone, Copy, PartialEq, Eq, Structural)]
pub enum Platform {
    MacOs,
    Linux,
    Other,
}

/// A program and the arguments it is started with.
pub struct LaunchCommand {
    pub program: String,
    pub args: Vec<String>,
}

/// The views of a list of strings.
pub open spec fn texts(v: Seq<String>) -> Seq<Seq<char>> {
    v.map_values(|s: String| s@)
}

/// The browser that the flags ask for; the first flag set wins, in the
/// order Safari, Chrome, Firefox, Brave, and none set asks for the default.
pub open spec fn browser_of(safari: bool, chrome: bool, firefox: bool, brave: bool) -> BrowserChoice {
    if safari {
        BrowserChoice::Safari
    } else if chrome {
        BrowserChoice::Chrome
    } else if firefox {
        BrowserChoice::Firefox
    } else if brave {
        BrowserChoice::Brave
    } else {
        BrowserChoice::Default
    }
}

/// The browser that the command-line flags select.
pub fn choose_browser(safari: bool, chrome: bool, firefox: bool, brave: bool) -> (r:
    BrowserChoice)
    ensures
        r == browser_of(safari, chrome, firefox, brave),
{
    if safari {
        BrowserChoice::Safari
    } else if chrome {
        BrowserChoice::Chrome
    } else if firefox {
        BrowserChoice::Firefox
    } else if brave {
        BrowserChoice::Brave
    } else {
        BrowserChoice::Default
    }
}

/// The application name that macOS's `open -a` is given for a named browser.
pub open spec fn mac_app_name(b: BrowserChoice) -> Seq<char> {
    match b {
        BrowserChoice::Safari => "Safari"@,
        BrowserChoice::Chrome => "Google Chrome"@,
        BrowserChoice::Firefox => "Firefox"@,
        _ => "Brave Browser"@,
    }
}

/// The Linux program that opens a URL in the chosen browser.
pub open spec fn linux_program(b: BrowserChoice) -> Seq<char> {
    match b {
        BrowserChoice::Default => "xdg-open"@,
        BrowserChoice::Chrome => "google-chrome"@,
        BrowserChoice::Firefox => "firefox"@,
        _ => "brave-browser"@,
    }
}

/// The command that opens `url` in browser `b` on platform `p`, or the
/// reason there is none.
pub open spec fn launch_spec(url: Seq<char>, b: BrowserChoice, p: Platform) -> Result<
    (Seq<char>, Seq<Seq<char>>),
    AliasError,
> {
    match p {
        Platform::MacOs => if b is Default {
            Ok(("open"@, seq![url]))
        } else {
            Ok(("open"@, seq!["-a"@, mac_app_name(b), url]))
        },
        Platform::Linux => if b is Safari {
            Err(AliasError::BrowserUnavailable(BrowserChoice::Safari))
        } else {
            Ok((linux_program(b), seq![url]))
        },
        Platform::Other => Err(AliasError::UnsupportedPlatform),
    }
}

/// Chooses the command that opens `url` in browser `browser` on `platform`.
pub fn launch_command(url: &str, browser: BrowserChoice, platform: Platform) -> (r: Result<
    LaunchCommand,
    AliasError,
>)
    ensures
        match (r, launch_spec(url@, browser, platform)) {
            (Ok(c), Ok(s)) => c.program@ == s.0 && texts(c.args@) == s.1,
            (Err(e), Err(s)) => e == s,
            _ => false,
        },
{
    let target: String = url.to_owned();
    match platform {
        Platform::MacOs => {
            let mut args: Vec<String> = Vec::new();
            match browser {
                BrowserChoice::Default => {},
                _ => {
                    let app = match browser {
                        BrowserChoice::Safari => "Safari",
                        BrowserChoice::Chrome => "Google Chrome",
                        BrowserChoice::Firefox => "Firefox",
                        _ => "Brave Browser",
                    };
                    args.push("-a".to_owned());
                    args.push(app.to_owned());
                },
            }
            args.push(target);
            proof {
                if browser is Default {
                    assert(texts(args@) =~= seq![url@]);
                } else {
                    assert(texts(args@) =~= seq!["-a"@, mac_app_name(browser), url@]);
                }
            }
            Ok(LaunchCommand { program: "open".to_owned(), args })
        },
        Platform::Linux => {
            let program = match browser {
                BrowserChoice::Safari => {
                    return Err(AliasError::BrowserUnavailable(BrowserChoice::Safari));
                },
                BrowserChoice::Default => "xdg-open",
                BrowserChoice::Chrome => "google-chrome",
                BrowserChoice::Firefox => "firefox",
                BrowserChoice::Brave => "brave-browser",
            };
            let mut args: Vec<String> = Vec::new();
            args.push(target);
            assert(texts(args@) =~= seq![url@]);
            Ok(LaunchCommand { program: program.to_owned(), args })
        },
        Platform::Other => Err(AliasError::UnsupportedPlatform),
    }
}

} // verus!
