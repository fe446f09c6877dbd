//! Hooking the tool into the user's shell.
use vstd::prelude::*;
use crate::text::str_eq;

verus! {

/// The shells the tool can set itself up in.
#[derive(PartialEq, Eq, Structural, Clone, Copy, Debug)]
pub enum SetupVariant {
    Linux,
    Windows,
}

/// Which setup to run: the one asked for, else the one of the running system
/// (`os`). Any other name is returned as the error.
pub fn setup_variant(requested: Option<String>, os: &str) -> (r: Result<SetupVariant, String>)
    ensures
        ({
            let name = match requested {
                Some(n) => n@,
                None => os@,
            };
            if name == "linux"@ {
                r == Ok::<SetupVariant, String>(SetupVariant::Linux)
            } else if name == "windows"@ {
                r == Ok::<SetupVariant, String>(SetupVariant::Windows)
            } else {
                r matches Err(e) && e@ == name
            }
        }),
{
    let name = match requested {
        Some(n) => n,
        None => String::from_str(os),
    };
    if str_eq(name.as_str(), "linux") {
        Ok(SetupVariant::Linux)
    } else if str_eq(name.as_str(), "windows") {
        Ok(SetupVariant::Windows)
    } else {
        Err(name)
    }
}

/// The line appended to `.bashrc`: source the init script of the directory `dir`
/// when it exists.
pub fn bash_source_line(dir: &str) -> (r: String)
    ensures
        r@ == "[[ -s \""@ + dir@ + "/dsdk-init.sh\" ]] && source \""@ + dir@ + "/dsdk-init.sh\""@,
{
    let mut r = String::from_str("[[ -s \"");
    r.append(dir);
    r.append("/dsdk-init.sh\" ]] && source \"");
    r.append(dir);
    r.append("/dsdk-init.sh\"");
    r
}

/// The CMD startup script: an alias that runs the tool's batch file in `dir`.
pub fn cmd_init_script(dir: &str) -> (r: String)
    ensures
        r@ == "doskey dsdk="@ + dir@ + "\\dsdk.bat $*"@,
{
    let mut r = String::from_str("doskey dsdk=");
    r.append(dir);
    r.append("\\dsdk.bat $*");
    r
}

} // verus!
