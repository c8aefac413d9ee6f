//! Shell detection: the shells completions can be generated for, recognized
//! from a name, an executable path, or a configuration value.

use crate::cache::ascii_lower;
use vstd::prelude::*;

verus! {

/// The shells completions can be generated for.
#[derive(Clone, Copy, Debug, Eq, Hash, PartialEq, Structural)]
pub enum Shell {
    /// Bourne Again `SHell` (bash).
    Bash,
    /// Elvish shell.
    Elvish,
    /// Friendly Interactive `SHell` (fish).
    Fish,
    /// `PowerShell`.
    PowerShell,
    /// Z `SHell` (zsh).
    Zsh,
    /// Nushell.
    Nushell,
}

/// The longest suffix of `t` without a path separator.
pub open spec fn tail_segment(t: Seq<char>) -> Seq<char>
    decreases t.len(),
{
    if t.len() == 0 || t.last() == '/' {
        Seq::empty()
    } else {
        tail_segment(t.drop_last()).push(t.last())
    }
}

/// The file name of a path: its last real component.  Trailing separators
/// and `.` components are skipped; a path ending in `..` or holding no real
/// component has no file name.
pub open spec fn spec_file_name(s: Seq<char>) -> Option<Seq<char>>
    decreases s.len(),
{
    if s.len() == 0 {
        None
    } else if s.last() == '/' {
        spec_file_name(s.drop_last())
    } else {
        let seg = tail_segment(s);
        if seg == seq!['.'] {
            spec_file_name(s.drop_last())
        } else if seg == seq!['.', '.'] {
            None
        } else {
            Some(seg)
        }
    }
}

/// The position of the last dot in a file name, `-1` when there is none.
pub open spec fn last_dot_index(name: Seq<char>) -> int
    decreases name.len(),
{
    if name.len() == 0 {
        -1
    } else if name.last() == '.' {
        name.len() - 1
    } else {
        last_dot_index(name.drop_last())
    }
}

/// The stem of a file name: everything before the last dot, unless the dot
/// leads the name or there is none.
pub open spec fn spec_file_stem(name: Seq<char>) -> Seq<char> {
    let d = last_dot_index(name);
    if d <= 0 {
        name
    } else {
        name.take(d)
    }
}

/// The shell a file stem names, if any.
pub open spec fn shell_of_stem(stem: Seq<char>) -> Option<Shell> {
    if stem == seq!['b', 'a', 's', 'h'] {
        Some(Shell::Bash)
    } else if stem == seq!['z', 's', 'h'] {
        Some(Shell::Zsh)
    } else if stem == seq!['f', 'i', 's', 'h'] {
        Some(Shell::Fish)
    } else if stem == seq!['e', 'l', 'v', 'i', 's', 'h'] {
        Some(Shell::Elvish)
    } else if stem == seq!['p', 'o', 'w', 'e', 'r', 's', 'h', 'e', 'l', 'l'] {
        Some(Shell::PowerShell)
    } else if stem == seq!['p', 'o', 'w', 'e', 'r', 's', 'h', 'e', 'l', 'l', '_', 'i', 's', 'e'] {
        Some(Shell::PowerShell)
    } else if stem == seq!['n', 'u'] {
        Some(Shell::Nushell)
    } else if stem == seq!['n', 'u', 's', 'h', 'e', 'l', 'l'] {
        Some(Shell::Nushell)
    } else {
        None
    }
}

/// The shell named by the file stem of an executable path.
pub open spec fn spec_from_shell_path(s: Seq<char>) -> Option<Shell> {
    match spec_file_name(s) {
        None => None,
        Some(n) => shell_of_stem(spec_file_stem(n)),
    }
}

/// The shell a lowered name spells, if any.
pub open spec fn shell_of_name(name: Seq<char>) -> Option<Shell> {
    if name == seq!['b', 'a', 's', 'h'] {
        Some(Shell::Bash)
    } else if name == seq!['e', 'l', 'v', 'i', 's', 'h'] {
        Some(Shell::Elvish)
    } else if name == seq!['f', 'i', 's', 'h'] {
        Some(Shell::Fish)
    } else if name == seq!['p', 'o', 'w', 'e', 'r', 's', 'h', 'e', 'l', 'l'] {
        Some(Shell::PowerShell)
    } else if name == seq!['z', 's', 'h'] {
        Some(Shell::Zsh)
    } else if name == seq!['n', 'u', 's', 'h', 'e', 'l', 'l'] {
        Some(Shell::Nushell)
    } else {
        None
    }
}

/// The characters of `s`.
fn chars_of(s: &str) -> (r: Vec<char>)
    ensures
        r@ == s@,
{
    let n = s.unicode_len();
    let mut out: Vec<char> = Vec::new();
    let mut i: usize = 0;
    while i < n
        invariant
            0 <= i <= n,
            n == s@.len(),
            out@ == s@.take(i as int),
        decreases n - i,
    {
        out.push(s.get_char(i));
        proof {
            assert(out@ =~= s@.take(i as int + 1));
        }
        i = i + 1;
    }
    proof {
        assert(s@.take(n as int) =~= s@);
    }
    out
}

/// Whether the characters `cs[b..e]` spell `lit`.
fn seg_is(cs: &Vec<char>, b: usize, e: usize, lit: &str) -> (r: bool)
    requires
        b <= e <= cs@.len(),
    ensures
        r == (cs@.subrange(b as int, e as int) == lit@),
{
    let m = lit.unicode_len();
    if e - b != m {
        proof {
            assert(cs@.subrange(b as int, e as int).len() != lit@.len());
        }
        return false;
    }
    let mut i: usize = 0;
    while i < m
        invariant
            0 <= i <= m,
            b <= e <= cs@.len(),
            m == lit@.len(),
            e - b == m,
            forall|j: int| 0 <= j < i ==> cs@[b + j] == lit@[j],
        decreases m - i,
    {
        if cs[b + i] != lit.get_char(i) {
            proof {
                assert(cs@.subrange(b as int, e as int)[i as int] != lit@[i as int]);
            }
            return false;
        }
        i = i + 1;
    }
    proof {
        assert(cs@.subrange(b as int, e as int) =~= lit@);
    }
    true
}

impl Shell {
    /// Parses a shell from the path of its executable: the shell named by
    /// the path's file stem, compared case-sensitively.
    pub fn from_shell_path(path: &str) -> (r: Option<Shell>)
        ensures
            r == spec_from_shell_path(path@),
    {
        let cs = chars_of(path);
        let n = cs.len();
        let mut e = n;
        proof {
            assert(path@.take(n as int) =~= path@);
        }
        loop
            invariant
                0 <= e <= n,
                n == cs@.len(),
                cs@ == path@,
                spec_file_name(path@) == spec_file_name(path@.take(e as int)),
            decreases e,
        {
            let ghost e_at_start = e;
            // Skip trailing separators.
            while e > 0 && cs[e - 1] == '/'
                invariant
                    0 <= e <= n,
                    e <= e_at_start,
                    n == cs@.len(),
                    cs@ == path@,
                    spec_file_name(path@) == spec_file_name(path@.take(e as int)),
                decreases e,
            {
                proof {
                    assert(path@.take(e as int).last() == path@[e - 1]);
                    assert(path@.take(e as int).drop_last() =~= path@.take(e - 1));
                }
                e = e - 1;
            }
            if e == 0 {
                proof {
                    assert(path@.take(0).len() == 0);
                }
                return None;
            }
            // Find the segment start.
            let mut b = e;
            proof {
                assert(tail_segment(path@.take(e as int)) =~= tail_segment(path@.take(b as int))
                    + path@.subrange(b as int, e as int));
            }
            while b > 0 && cs[b - 1] != '/'
                invariant
                    0 < e <= n,
                    0 <= b <= e,
                    n == cs@.len(),
                    cs@ == path@,
                    tail_segment(path@.take(e as int)) == tail_segment(path@.take(b as int))
                        + path@.subrange(b as int, e as int),
                decreases b,
            {
                proof {
                    assert(path@.take(b as int).last() == path@[b - 1]);
                    assert(path@.take(b as int).drop_last() =~= path@.take(b - 1));
                    assert(tail_segment(path@.take(b as int)) == tail_segment(
                        path@.take(b - 1),
                    ).push(path@[b - 1]));
                    assert(tail_segment(path@.take(b - 1)).push(path@[b - 1]) + path@.subrange(
                        b as int,
                        e as int,
                    ) =~= tail_segment(path@.take(b - 1)) + path@.subrange(b - 1, e as int));
                }
                b = b - 1;
            }
            proof {
                assert(tail_segment(path@.take(b as int)) =~= Seq::<char>::empty());
                assert(tail_segment(path@.take(e as int)) =~= path@.subrange(b as int, e as int));
                assert(path@.take(e as int).last() == path@[e - 1]);
                assert(path@[e - 1] != '/');
            }
            let ghost seg = path@.subrange(b as int, e as int);
            if e - b == 1 && cs[b] == '.' {
                proof {
                    assert(seg =~= seq!['.']);
                    assert(path@.take(e as int).drop_last() =~= path@.take(e - 1));
                }
                e = e - 1;
            } else {
                proof {
                    if seg == seq!['.'] {
                        assert(seg.len() == 1 && seg[0] == '.');
                        assert(path@[b as int] == '.');
                        assert(false);
                    }
                }
                if e - b == 2 && cs[b] == '.' && cs[b + 1] == '.' {
                    proof {
                        assert(seg =~= seq!['.', '.']);
                    }
                    return None;
                }
                proof {
                    if seg == seq!['.', '.'] {
                        assert(seg.len() == 2 && seg[0] == '.' && seg[1] == '.');
                        assert(path@[b as int] == '.' && path@[b + 1] == '.');
                        assert(false);
                    }
                    assert(spec_file_name(path@) == Some(seg));
                }
                // Find the stem: cut at the last dot, unless it leads the
                // segment or there is none.
                let mut d = e;
                proof {
                    assert(seg.take(d - b as int) =~= seg);
                }
                while d > b && cs[d - 1] != '.'
                    invariant
                        b <= d <= e <= n,
                        n == cs@.len(),
                        cs@ == path@,
                        seg == path@.subrange(b as int, e as int),
                        last_dot_index(seg) == last_dot_index(seg.take(d - b as int)),
                    decreases d,
                {
                    proof {
                        let u = seg.take(d - b as int);
                        assert(u.last() == path@[d - 1]);
                        assert(u.drop_last() =~= seg.take(d - 1 - b as int));
                    }
                    d = d - 1;
                }
                let stem_end: usize = if d == b {
                    proof {
                        assert(seg.take(0).len() == 0);
                        assert(last_dot_index(seg) == -1);
                    }
                    e
                } else if d - 1 == b {
                    proof {
                        let u = seg.take(d - b as int);
                        assert(u.last() == path@[d - 1]);
                        assert(last_dot_index(seg) == 0);
                    }
                    e
                } else {
                    proof {
                        let u = seg.take(d - b as int);
                        assert(u.last() == path@[d - 1]);
                        assert(last_dot_index(seg) == d - 1 - b);
                    }
                    d - 1
                };
                proof {
                    assert(spec_file_stem(seg) == path@.subrange(b as int, stem_end as int)) by {
                        if last_dot_index(seg) > 0 {
                            assert(seg.take(last_dot_index(seg)) =~= path@.subrange(
                                b as int,
                                stem_end as int,
                            ));
                        } else {
                            assert(seg =~= path@.subrange(b as int, stem_end as int));
                        }
                    }
                    reveal_strlit("bash");
                    reveal_strlit("zsh");
                    reveal_strlit("fish");
                    reveal_strlit("elvish");
                    reveal_strlit("powershell");
                    reveal_strlit("powershell_ise");
                    reveal_strlit("nu");
                    reveal_strlit("nushell");
                    assert("bash"@ =~= seq!['b', 'a', 's', 'h']);
                    assert("zsh"@ =~= seq!['z', 's', 'h']);
                    assert("fish"@ =~= seq!['f', 'i', 's', 'h']);
                    assert("elvish"@ =~= seq!['e', 'l', 'v', 'i', 's', 'h']);
                    assert("powershell"@ =~= seq![
                        'p',
                        'o',
                        'w',
                        'e',
                        'r',
                        's',
                        'h',
                        'e',
                        'l',
                        'l',
                    ]);
                    assert("powershell_ise"@ =~= seq![
                        'p',
                        'o',
                        'w',
                        'e',
                        'r',
                        's',
                        'h',
                        'e',
                        'l',
                        'l',
                        '_',
                        'i',
                        's',
                        'e',
                    ]);
                    assert("nu"@ =~= seq!['n', 'u']);
                    assert("nushell"@ =~= seq!['n', 'u', 's', 'h', 'e', 'l', 'l']);
                }
                if seg_is(&cs, b, stem_end, "bash") {
                    return Some(Shell::Bash);
                }
                if seg_is(&cs, b, stem_end, "zsh") {
                    return Some(Shell::Zsh);
                }
                if seg_is(&cs, b, stem_end, "fish") {
                    return Some(Shell::Fish);
                }
                if seg_is(&cs, b, stem_end, "elvish") {
                    return Some(Shell::Elvish);
                }
                if seg_is(&cs, b, stem_end, "powershell") {
                    return Some(Shell::PowerShell);
                }
                if seg_is(&cs, b, stem_end, "powershell_ise") {
                    return Some(Shell::PowerShell);
                }
                if seg_is(&cs, b, stem_end, "nu") {
                    return Some(Shell::Nushell);
                }
                if seg_is(&cs, b, stem_end, "nushell") {
                    return Some(Shell::Nushell);
                }
                return None;
            }
        }
    }

    /// The shell's lowercase name.
    pub fn name(&self) -> (r: &'static str)
        ensures
            *self is Bash ==> r@ == seq!['b', 'a', 's', 'h'],
            *self is Elvish ==> r@ == seq!['e', 'l', 'v', 'i', 's', 'h'],
            *self is Fish ==> r@ == seq!['f', 'i', 's', 'h'],
            *self is PowerShell ==> r@ == seq!['p', 'o', 'w', 'e', 'r', 's', 'h', 'e', 'l', 'l'],
            *self is Zsh ==> r@ == seq!['z', 's', 'h'],
            *self is Nushell ==> r@ == seq!['n', 'u', 's', 'h', 'e', 'l', 'l'],
    {
        proof {
            reveal_strlit("bash");
            reveal_strlit("elvish");
            reveal_strlit("fish");
            reveal_strlit("powershell");
            reveal_strlit("zsh");
            reveal_strlit("nushell");
            assert("bash"@ =~= seq!['b', 'a', 's', 'h']);
            assert("elvish"@ =~= seq!['e', 'l', 'v', 'i', 's', 'h']);
            assert("fish"@ =~= seq!['f', 'i', 's', 'h']);
            assert("powershell"@ =~= seq!['p', 'o', 'w', 'e', 'r', 's', 'h', 'e', 'l', 'l']);
            assert("zsh"@ =~= seq!['z', 's', 'h']);
            assert("nushell"@ =~= seq!['n', 'u', 's', 'h', 'e', 'l', 'l']);
        }
        match self {
            Shell::Bash => "bash",
            Shell::Elvish => "elvish",
            Shell::Fish => "fish",
            Shell::PowerShell => "powershell",
            Shell::Zsh => "zsh",
            Shell::Nushell => "nushell",
        }
    }

    /// Parses a shell name, case-insensitively.  Unknown names are rejected
    /// with a message quoting the input.
    pub fn parse_name(s: &str) -> (r: Result<Shell, String>)
        ensures
            r matches Ok(shell) ==> shell_of_name(ascii_lower(s@)) == Some(shell),
            r is Err <==> shell_of_name(ascii_lower(s@)) is None,
            r matches Err(msg) ==> msg@ == seq![
                'i',
                'n',
                'v',
                'a',
                'l',
                'i',
                'd',
                ' ',
                'v',
                'a',
                'r',
                'i',
                'a',
                'n',
                't',
                ':',
                ' ',
            ] + s@,
    {
        let n = s.unicode_len();
        let mut lowered: Vec<char> = Vec::new();
        let mut i: usize = 0;
        while i < n
            invariant
                0 <= i <= n,
                n == s@.len(),
                lowered@ == ascii_lower(s@.take(i as int)),
            decreases n - i,
        {
            let c = s.get_char(i);
            let lc = if 'A' <= c && c <= 'Z' {
                (((c as u32) + 32) as u8) as char
            } else {
                c
            };
            lowered.push(lc);
            proof {
                assert(lowered@ =~= ascii_lower(s@.take(i as int + 1)));
            }
            i = i + 1;
        }
        proof {
            assert(s@.take(n as int) =~= s@);
        }
        proof {
            reveal_strlit("bash");
            reveal_strlit("elvish");
            reveal_strlit("fish");
            reveal_strlit("powershell");
            reveal_strlit("zsh");
            reveal_strlit("nushell");
            assert("bash"@ =~= seq!['b', 'a', 's', 'h']);
            assert("elvish"@ =~= seq!['e', 'l', 'v', 'i', 's', 'h']);
            assert("fish"@ =~= seq!['f', 'i', 's', 'h']);
            assert("powershell"@ =~= seq!['p', 'o', 'w', 'e', 'r', 's', 'h', 'e', 'l', 'l']);
            assert("zsh"@ =~= seq!['z', 's', 'h']);
            assert("nushell"@ =~= seq!['n', 'u', 's', 'h', 'e', 'l', 'l']);
        }
        let m = lowered.len();
        if seg_is(&lowered, 0, m, "bash") {
            proof {
                assert(lowered@.subrange(0, m as int) =~= lowered@);
            }
            return Ok(Shell::Bash);
        }
        if seg_is(&lowered, 0, m, "elvish") {
            proof {
                assert(lowered@.subrange(0, m as int) =~= lowered@);
            }
            return Ok(Shell::Elvish);
        }
        if seg_is(&lowered, 0, m, "fish") {
            proof {
                assert(lowered@.subrange(0, m as int) =~= lowered@);
            }
            return Ok(Shell::Fish);
        }
        if seg_is(&lowered, 0, m, "powershell") {
            proof {
                assert(lowered@.subrange(0, m as int) =~= lowered@);
            }
            return Ok(Shell::PowerShell);
        }
        if seg_is(&lowered, 0, m, "zsh") {
            proof {
                assert(lowered@.subrange(0, m as int) =~= lowered@);
            }
            return Ok(Shell::Zsh);
        }
        if seg_is(&lowered, 0, m, "nushell") {
            proof {
                assert(lowered@.subrange(0, m as int) =~= lowered@);
            }
            return Ok(Shell::Nushell);
        }
        proof {
            assert(lowered@.subrange(0, m as int) =~= lowered@);
            reveal_strlit("invalid variant: ");
            assert("invalid variant: "@ =~= seq![
                'i',
                'n',
                'v',
                'a',
                'l',
                'i',
                'd',
                ' ',
                'v',
                'a',
                'r',
                'i',
                'a',
                'n',
                't',
                ':',
                ' ',
            ]);
        }
        let mut msg = "invalid variant: ".to_owned();
        msg.append(s);
        Err(msg)
    }
}

impl core::str::FromStr for Shell {
    type Err = String;

    fn from_str(s: &str) -> (r: Result<Shell, String>) {
        Shell::parse_name(s)
    }
}

} // verus!
