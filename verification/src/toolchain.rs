//! The pinned analysis toolchain: its identifying constants and the layout
//! of an installed runtime directory.

use vstd::prelude::*;

verus! {

/// The full name of the pinned toolchain the analysis runs under.
pub const TOOLCHAIN: &'static str = "nightly-2025-01-09-x86_64-unknown-linux-gnu";

/// The host target tuple the toolchain is built for.
pub const HOST_TUPLE: &'static str = "x86_64-unknown-linux-gnu";

/// The release channel of the pinned toolchain.
pub const TOOLCHAIN_CHANNEL: &'static str = "nightly";

/// The date of the pinned toolchain, when it is a dated snapshot; the
/// toolchain name itself carries the date, so none is recorded separately.
pub const TOOLCHAIN_DATE: Option<&'static str> = None;

/// The characters of the path separator followed by the sysroot directory
/// name.
pub open spec fn sysroot_component() -> Seq<char> {
    seq!['s', 'y', 's', 'r', 'o', 'o', 't']
}

/// The sysroot directory of an installed runtime: the runtime directory,
/// then `sysroot`, then the toolchain name, joined as path components.
pub open spec fn spec_sysroot_from_runtime(runtime: Seq<char>, toolchain: Seq<char>) -> Seq<char> {
    let sep = if runtime.len() == 0 || runtime.last() == '/' {
        Seq::<char>::empty()
    } else {
        seq!['/']
    };
    runtime + sep + sysroot_component() + seq!['/'] + toolchain
}

/// The sysroot directory under a runtime directory.
pub fn sysroot_from_runtime(runtime: &str) -> (r: String)
    ensures
        r@ == spec_sysroot_from_runtime(runtime@, TOOLCHAIN@),
{
    proof {
        reveal_strlit("/");
        reveal_strlit("sysroot");
        assert("/"@ =~= seq!['/']);
        assert("sysroot"@ =~= sysroot_component());
    }
    let mut out = runtime.to_owned();
    let n = runtime.unicode_len();
    let needs_sep = if n == 0 {
        false
    } else {
        runtime.get_char(n - 1) != '/'
    };
    if needs_sep {
        out.append("/");
    }
    out.append("sysroot");
    out.append("/");
    out.append(TOOLCHAIN);
    proof {
        assert(out@ =~= spec_sysroot_from_runtime(runtime@, TOOLCHAIN@));
    }
    out
}

} // verus!
