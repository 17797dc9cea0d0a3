use vstd::prelude::*;

use crate::config::{entries_lookup, text_of, texts, Layer};

verus! {

/// What `str::to_lowercase` makes of a text.
pub uninterp spec fn lower_of(s: Seq<char>) -> Seq<char>;

/// Relies on `str::to_lowercase`: the result depends on the characters
/// alone, an empty text stays empty, and since only a line feed lowercases
/// to a line feed, text without one gives text without one.
#[verifier::external_body]
fn lowercase(s: &str) -> (r: String)
    ensures
        r@ == lower_of(s@),
        s@.len() == 0 ==> r@.len() == 0,
        !s@.contains('\n') ==> !r@.contains('\n'),
{
    s.to_lowercase()
}

/// Where the last `::` of `s` starts, or -1 where there is none.
pub open spec fn last_separator(s: Seq<char>) -> int
    decreases s.len(),
{
    if s.len() < 2 {
        -1
    } else if s[s.len() - 2] == ':' && s[s.len() - 1] == ':' {
        s.len() - 2
    } else {
        last_separator(s.drop_last())
    }
}

/// `s` without everything up to and including its last `::`.
pub open spec fn after_last_separator(s: Seq<char>) -> Seq<char> {
    if last_separator(s) < 0 {
        s
    } else {
        s.subrange(last_separator(s) + 2, s.len() as int)
    }
}

/// Relies on `regex::Regex::new` and `Regex::replace` with the pattern
/// `.*::`: on a single line, the leftmost match runs from the start to the
/// end of the last `::`, and it is removed; without `::` nothing matches.
#[verifier::external_body]
fn strip_module_path(text: &str) -> (r: String)
    ensures
        !text@.contains('\n') ==> r@ == after_last_separator(text@),
{
    regex::Regex::new(r".*::").unwrap().replace(text, "").into_owned()
}

/// The name of a profile given the full path of its type: the last path
/// segment, in lower case.
pub fn profile_name_of(path: &str) -> (r: String)
    ensures
        !path@.contains('\n') ==> r@ == after_last_separator(lower_of(path@)),
{
    let lower = lowercase(path);
    strip_module_path(lower.as_str())
}

/// The profile that the command line names: the argument after the first
/// `--profile`, if there is one.
pub open spec fn profile_arg(args: Seq<Seq<char>>) -> Option<Seq<char>>
    decreases args.len(),
{
    if args.len() == 0 {
        None
    } else if args[0] == seq!['-', '-', 'p', 'r', 'o', 'f', 'i', 'l', 'e'] {
        if args.len() >= 2 {
            Some(args[1])
        } else {
            None
        }
    } else {
        profile_arg(args.drop_first())
    }
}

/// The text of an optional string.
pub open spec fn opt_text(o: Option<String>) -> Option<Seq<char>> {
    match o {
        Some(s) => Some(s@),
        None => None,
    }
}

/// The profile a process runs with, in order of priority: `--profile` on the
/// command line, the environment's choice, the default file's `profile`
/// text, and else `default`.
pub open spec fn profile_choice(
    args: Seq<Seq<char>>,
    env: Option<Seq<char>>,
    file: Seq<(String, crate::config::PropValue)>,
) -> Seq<char> {
    match profile_arg(args) {
        Some(p) => p,
        None => match env {
            Some(e) => e,
            None => match entries_lookup(file, seq!['p', 'r', 'o', 'f', 'i', 'l', 'e']) {
                Some(v) => match text_of(v) {
                    Some(t) => t,
                    None => seq!['d', 'e', 'f', 'a', 'u', 'l', 't'],
                },
                None => seq!['d', 'e', 'f', 'a', 'u', 'l', 't'],
            },
        },
    }
}

/// Chooses the profile from the command line, the environment's choice and
/// the default configuration file.
pub fn select_profile(args: &Vec<String>, env_profile: Option<String>, default_file: &Layer) -> (r:
    String)
    ensures
        r@ == profile_choice(texts(args@), opt_text(env_profile), default_file.entries@),
{
    let ghost all = texts(args@);
    let flag = "--profile".to_owned();
    proof {
        reveal_strlit("--profile");
        assert(flag@ =~= seq!['-', '-', 'p', 'r', 'o', 'f', 'i', 'l', 'e']);
        assert(all.subrange(0, all.len() as int) =~= all);
    }
    let mut i: usize = 0;
    let mut from_args: Option<String> = None;
    let mut done = false;
    while i < args.len() && !done
        invariant
            i <= args@.len(),
            all == texts(args@),
            all.len() == args@.len(),
            flag@ == seq!['-', '-', 'p', 'r', 'o', 'f', 'i', 'l', 'e'],
            !done ==> profile_arg(all) == profile_arg(all.subrange(i as int, all.len() as int)),
            !done ==> from_args is None,
            done ==> opt_text(from_args) == profile_arg(all),
        decreases args@.len() - i,
    {
        let ghost rest = all.subrange(i as int, all.len() as int);
        assert(rest[0] == args@[i as int]@);
        if args[i] == flag {
            if i + 1 < args.len() {
                assert(rest[1] == args@[i + 1]@);
                from_args = Some(args[i + 1].clone());
            }
            done = true;
            i = args.len();
        } else {
            assert(rest.drop_first() =~= all.subrange(i + 1, all.len() as int));
            i = i + 1;
        }
    }
    if !done {
        assert(all.subrange(i as int, all.len() as int) =~= Seq::<Seq<char>>::empty());
    }
    match from_args {
        Some(p) => p,
        None => match env_profile {
            Some(e) => e,
            None => {
                let fallback = "default".to_owned();
                proof {
                    reveal_strlit("default");
                    reveal_strlit("profile");
                    assert(fallback@ =~= seq!['d', 'e', 'f', 'a', 'u', 'l', 't']);
                    assert("profile"@ =~= seq!['p', 'r', 'o', 'f', 'i', 'l', 'e']);
                }
                match default_file.lookup("profile") {
                    Some(v) => match v.as_text() {
                        Some(t) => t,
                        None => fallback,
                    },
                    None => fallback,
                }
            },
        },
    }
}

/// Whether a profile has a configuration file of its own: every profile but
/// `default`, whose file is the default one.
pub fn uses_profile_file(profile: &str) -> (r: bool)
    ensures
        r == (profile@ != seq!['d', 'e', 'f', 'a', 'u', 'l', 't']),
{
    let p = profile.to_owned();
    let d = "default".to_owned();
    proof {
        reveal_strlit("default");
        assert(d@ =~= seq!['d', 'e', 'f', 'a', 'u', 'l', 't']);
    }
    !(p == d)
}

} // verus!
