use vstd::prelude::*;

verus! {

/// A value as a configuration source holds it, before it is read as a
/// particular type.
#[derive(Debug, PartialEq)]
pub enum PropValue {
    Int(i64),
    Bool(bool),
    Str(String),
}

impl PropValue {
    /// An equal copy of the value.
    pub fn duplicate(&self) -> (r: PropValue)
        ensures
            r == *self,
    {
        match self {
            PropValue::Int(i) => PropValue::Int(*i),
            PropValue::Bool(b) => PropValue::Bool(*b),
            PropValue::Str(s) => PropValue::Str(s.clone()),
        }
    }
}

/// One configuration source: a list of key/value entries. Where a key occurs
/// more than once in a source, its last entry counts.
pub struct Layer {
    pub entries: Vec<(String, PropValue)>,
}

/// The value that `entries` gives to `key`: the one of its last entry with
/// that key.
pub open spec fn entries_lookup(entries: Seq<(String, PropValue)>, key: Seq<char>) -> Option<
    PropValue,
>
    decreases entries.len(),
{
    if entries.len() == 0 {
        None
    } else if entries.last().0@ == key {
        Some(entries.last().1)
    } else {
        entries_lookup(entries.drop_last(), key)
    }
}

/// The value that a sequence of layers, lowest precedence first, gives to
/// `key`: that of the highest layer that defines it.
pub open spec fn layers_lookup(layers: Seq<Layer>, key: Seq<char>) -> Option<PropValue>
    decreases layers.len(),
{
    if layers.len() == 0 {
        None
    } else {
        match entries_lookup(layers.last().entries@, key) {
            Some(v) => Some(v),
            None => layers_lookup(layers.drop_last(), key),
        }
    }
}

impl Layer {
    /// A source without entries (a file that is not there).
    pub fn empty() -> (r: Layer)
        ensures
            r.entries@.len() == 0,
    {
        Layer { entries: Vec::new() }
    }

    /// The value of `key` in this source alone.
    pub fn lookup(&self, key: &str) -> (r: Option<PropValue>)
        ensures
            r == entries_lookup(self.entries@, key@),
    {
        let wanted = key.to_owned();
        let mut i: usize = self.entries.len();
        assert(self.entries@.subrange(0, i as int) =~= self.entries@);
        while i > 0
            invariant
                i <= self.entries@.len(),
                wanted@ == key@,
                entries_lookup(self.entries@, key@) == entries_lookup(
                    self.entries@.subrange(0, i as int),
                    key@,
                ),
            decreases i,
        {
            let ghost prefix = self.entries@.subrange(0, i as int);
            assert(prefix.drop_last() =~= self.entries@.subrange(0, i - 1));
            if self.entries[i - 1].0 == wanted {
                return Some(self.entries[i - 1].1.duplicate());
            }
            i = i - 1;
        }
        assert(self.entries@.subrange(0, 0) =~= Seq::<(String, PropValue)>::empty());
        None
    }
}

/// The configuration of one container: its sources, lowest precedence first.
pub struct ConfigStore {
    pub layers: Vec<Layer>,
}

/// Whether `c` is an ASCII decimal digit.
pub open spec fn is_digit(c: char) -> bool {
    '0' <= c && c <= '9'
}

/// The number that a sequence of decimal digits writes.
pub open spec fn digits_value(s: Seq<char>) -> int
    decreases s.len(),
{
    if s.len() == 0 {
        0
    } else {
        digits_value(s.drop_last()) * 10 + ((s.last() as u32) - ('0' as u32))
    }
}

/// Whether `s` is one or more decimal digits.
pub open spec fn all_digits(s: Seq<char>) -> bool {
    s.len() > 0 && forall|i: int| 0 <= i < s.len() ==> is_digit(#[trigger] s[i])
}

/// The integer that `s` writes in decimal, with an optional leading `+` or
/// `-`, if it writes one.
pub open spec fn decimal_of(s: Seq<char>) -> Option<int> {
    if s.len() > 0 && s[0] == '-' && all_digits(s.drop_first()) {
        Some(-digits_value(s.drop_first()))
    } else if s.len() > 0 && s[0] == '+' && all_digits(s.drop_first()) {
        Some(digits_value(s.drop_first()))
    } else if all_digits(s) {
        Some(digits_value(s))
    } else {
        None
    }
}

/// The `i64` that `s` writes in decimal, if it writes one in range.
pub open spec fn i64_of_text(s: Seq<char>) -> Option<i64> {
    match decimal_of(s) {
        Some(v) => if i64::MIN <= v && v <= i64::MAX {
            Some(v as i64)
        } else {
            None
        },
        None => None,
    }
}

/// Relies on `i64::from_str` (through `str::parse`): an optional sign and at
/// least one decimal digit, in range, and nothing else.
#[verifier::external_body]
fn parse_i64(s: &str) -> (r: Option<i64>)
    ensures
        r == i64_of_text(s@),
{
    s.parse::<i64>().ok()
}

/// The integer that a stored value reads as: an integer as it is, a string
/// that writes one in decimal; nothing else.
pub open spec fn int_of(v: PropValue) -> Option<i64> {
    match v {
        PropValue::Int(i) => Some(i),
        PropValue::Str(s) => i64_of_text(s@),
        PropValue::Bool(_) => None,
    }
}

/// The boolean that a stored value reads as: a boolean as it is, the strings
/// `true` and `false`; nothing else.
pub open spec fn bool_of(v: PropValue) -> Option<bool> {
    match v {
        PropValue::Bool(b) => Some(b),
        PropValue::Str(s) => if s@ == seq!['t', 'r', 'u', 'e'] {
            Some(true)
        } else if s@ == seq!['f', 'a', 'l', 's', 'e'] {
            Some(false)
        } else {
            None
        },
        PropValue::Int(_) => None,
    }
}

/// The text that a stored value reads as: only a string has one.
pub open spec fn text_of(v: PropValue) -> Option<Seq<char>> {
    match v {
        PropValue::Str(s) => Some(s@),
        _ => None,
    }
}

impl PropValue {
    /// This value read as an integer.
    pub fn as_int(&self) -> (r: Option<i64>)
        ensures
            r == int_of(*self),
    {
        match self {
            PropValue::Int(i) => Some(*i),
            PropValue::Str(s) => parse_i64(s.as_str()),
            PropValue::Bool(_) => None,
        }
    }

    /// This value read as a boolean.
    pub fn as_bool(&self) -> (r: Option<bool>)
        ensures
            r == bool_of(*self),
    {
        match self {
            PropValue::Bool(b) => Some(*b),
            PropValue::Str(s) => {
                let t = "true".to_owned();
                let f = "false".to_owned();
                proof {
                    reveal_strlit("true");
                    reveal_strlit("false");
                    assert(t@ =~= seq!['t', 'r', 'u', 'e']);
                    assert(f@ =~= seq!['f', 'a', 'l', 's', 'e']);
                }
                if *s == t {
                    Some(true)
                } else if *s == f {
                    Some(false)
                } else {
                    None
                }
            },
            PropValue::Int(_) => None,
        }
    }

    /// This value read as text.
    pub fn as_text(&self) -> (r: Option<String>)
        ensures
            r is Some == text_of(*self) is Some,
            r is Some ==> r->0@ == text_of(*self)->0,
    {
        match self {
            PropValue::Str(s) => Some(s.clone()),
            _ => None,
        }
    }
}

impl ConfigStore {
    /// The four sources of a container, from lowest to highest precedence:
    /// the default file, the profile's file, the environment, the command
    /// line.
    pub fn new(default_file: Layer, profile_file: Layer, environment: Layer, arguments: Layer) -> (r:
        ConfigStore)
        ensures
            r.layers@ == seq![default_file, profile_file, environment, arguments],
    {
        let mut layers: Vec<Layer> = Vec::new();
        layers.push(default_file);
        layers.push(profile_file);
        layers.push(environment);
        layers.push(arguments);
        assert(layers@ =~= seq![default_file, profile_file, environment, arguments]);
        ConfigStore { layers }
    }

    /// The value of `key` in the highest-precedence source that defines it,
    /// or `None` where no source does.
    pub fn lookup(&self, key: &str) -> (r: Option<PropValue>)
        ensures
            r == layers_lookup(self.layers@, key@),
    {
        let mut i: usize = self.layers.len();
        assert(self.layers@.subrange(0, i as int) =~= self.layers@);
        while i > 0
            invariant
                i <= self.layers@.len(),
                layers_lookup(self.layers@, key@) == layers_lookup(
                    self.layers@.subrange(0, i as int),
                    key@,
                ),
            decreases i,
        {
            let ghost prefix = self.layers@.subrange(0, i as int);
            assert(prefix.drop_last() =~= self.layers@.subrange(0, i - 1));
            let found = self.layers[i - 1].lookup(key);
            if found.is_some() {
                return found;
            }
            i = i - 1;
        }
        assert(self.layers@.subrange(0, 0) =~= Seq::<Layer>::empty());
        None
    }

    /// The integer under `key`: `Ok(None)` where no source defines it,
    /// `Err(())` where its value does not read as an integer.
    pub fn get_int(&self, key: &str) -> (r: Result<Option<i64>, ()>)
        ensures
            r == match layers_lookup(self.layers@, key@) {
                None => Ok(None),
                Some(v) => match int_of(v) {
                    Some(i) => Ok(Some(i)),
                    None => Err(()),
                },
            },
    {
        match self.lookup(key) {
            None => Ok(None),
            Some(v) => match v.as_int() {
                Some(i) => Ok(Some(i)),
                None => Err(()),
            },
        }
    }

    /// The boolean under `key`, as `get_int` reads an integer.
    pub fn get_bool(&self, key: &str) -> (r: Result<Option<bool>, ()>)
        ensures
            r == match layers_lookup(self.layers@, key@) {
                None => Ok(None),
                Some(v) => match bool_of(v) {
                    Some(b) => Ok(Some(b)),
                    None => Err(()),
                },
            },
    {
        match self.lookup(key) {
            None => Ok(None),
            Some(v) => match v.as_bool() {
                Some(b) => Ok(Some(b)),
                None => Err(()),
            },
        }
    }

    /// The text under `key`, as `get_int` reads an integer.
    pub fn get_string(&self, key: &str) -> (r: Result<Option<String>, ()>)
        ensures
            layers_lookup(self.layers@, key@) is None ==> r == Ok::<Option<String>, ()>(None),
            layers_lookup(self.layers@, key@) is Some ==> match text_of(
                layers_lookup(self.layers@, key@)->0,
            ) {
                Some(t) => r is Ok && r->Ok_0 is Some && r->Ok_0->0@ == t,
                None => r == Err::<Option<String>, ()>(()),
            },
    {
        match self.lookup(key) {
            None => Ok(None),
            Some(v) => match v.as_text() {
                Some(t) => Ok(Some(t)),
                None => Err(()),
            },
        }
    }
}

/// Precedence of the four sources: a key takes its value from the command
/// line where it is set there, else from the environment, else from the
/// profile's file, else from the default file; where none sets it, it has
/// none.
pub proof fn lemma_precedence(
    default_file: Layer,
    profile_file: Layer,
    environment: Layer,
    arguments: Layer,
    key: Seq<char>,
)
    ensures
        layers_lookup(seq![default_file, profile_file, environment, arguments], key) == match entries_lookup(arguments.entries@, key) {
            Some(v) => Some(v),
            None => match entries_lookup(environment.entries@, key) {
                Some(v) => Some(v),
                None => match entries_lookup(profile_file.entries@, key) {
                    Some(v) => Some(v),
                    None => entries_lookup(default_file.entries@, key),
                },
            },
        },
{
    let s4 = seq![default_file, profile_file, environment, arguments];
    let s3 = seq![default_file, profile_file, environment];
    let s2 = seq![default_file, profile_file];
    let s1 = seq![default_file];
    assert(s4.drop_last() =~= s3);
    assert(s3.drop_last() =~= s2);
    assert(s2.drop_last() =~= s1);
    assert(s1.drop_last() =~= Seq::<Layer>::empty());
    assert(s4.last() == arguments);
    assert(s3.last() == environment);
    assert(s2.last() == profile_file);
    assert(s1.last() == default_file);
    reveal_with_fuel(layers_lookup, 5);
}

/// Relies on `str::strip_prefix`: the rest of `s` after `prefix` where `s`
/// starts with it, else `None`.
#[verifier::external_body]
fn strip_prefix<'a>(s: &'a str, prefix: &str) -> (r: Option<&'a str>)
    ensures
        prefix@.is_prefix_of(s@) ==> r is Some && r->0@ == s@.subrange(
            prefix@.len() as int,
            s@.len() as int,
        ),
        !prefix@.is_prefix_of(s@) ==> r is None,
{
    s.strip_prefix(prefix)
}

/// The option name that a command-line argument gives, if it starts with
/// two dashes.
pub open spec fn option_name(a: Seq<char>) -> Option<Seq<char>> {
    if a.len() >= 2 && a[0] == '-' && a[1] == '-' {
        Some(a.subrange(2, a.len() as int))
    } else {
        None
    }
}

/// The overrides that command-line arguments give, in order: `--key value`
/// sets `key` to the text `value`; `--key` followed by another option or by
/// nothing is a flag (`None`); other arguments are skipped.
pub open spec fn cli_overrides(args: Seq<Seq<char>>) -> Seq<(Seq<char>, Option<Seq<char>>)>
    decreases args.len(),
{
    if args.len() == 0 {
        seq![]
    } else {
        match option_name(args[0]) {
            None => cli_overrides(args.drop_first()),
            Some(k) => if args.len() >= 2 && option_name(args[1]) is None {
                seq![(k, Some(args[1]))] + cli_overrides(args.subrange(2, args.len() as int))
            } else {
                seq![(k, None::<Seq<char>>)] + cli_overrides(args.drop_first())
            },
        }
    }
}

/// Whether a layer entry holds the override `o`: a flag is the boolean
/// `true`, a value is its text.
pub open spec fn entry_holds(e: (String, PropValue), o: (Seq<char>, Option<Seq<char>>)) -> bool {
    &&& e.0@ == o.0
    &&& match o.1 {
        None => e.1 == PropValue::Bool(true),
        Some(t) => e.1 is Str && e.1->Str_0@ == t,
    }
}

/// Whether the entries of a layer hold the overrides `os`, one for one.
pub open spec fn entries_hold(
    es: Seq<(String, PropValue)>,
    os: Seq<(Seq<char>, Option<Seq<char>>)>,
) -> bool {
    es.len() == os.len() && forall|i: int| 0 <= i < es.len() ==> entry_holds(es[i], os[i])
}

/// The text of each argument.
pub open spec fn texts(args: Seq<String>) -> Seq<Seq<char>> {
    args.map_values(|a: String| a@)
}

/// The source that the command line gives: `--key value` sets `key` to the
/// text `value`, and `--key` not followed by a value sets it to `true`.
pub fn parse_args(args: &Vec<String>) -> (r: Layer)
    ensures
        entries_hold(r.entries@, cli_overrides(texts(args@))),
{
    let mut entries: Vec<(String, PropValue)> = Vec::new();
    let ghost all = texts(args@);
    let mut i: usize = 0;
    proof {
        reveal_strlit("--");
        assert(all.subrange(0, all.len() as int) =~= all);
    }
    while i < args.len()
        invariant
            0 <= i <= args@.len(),
            all == texts(args@),
            all.len() == args@.len(),
            "--"@ =~= seq!['-', '-'],
            entries_hold(entries@, cli_overrides(all).subrange(0, entries@.len() as int)),
            cli_overrides(all) == cli_overrides(all).subrange(0, entries@.len() as int)
                + cli_overrides(all.subrange(i as int, all.len() as int)),
        decreases args@.len() - i,
    {
        let ghost rest = all.subrange(i as int, all.len() as int);
        let ghost done = cli_overrides(all).subrange(0, entries@.len() as int);
        assert(rest[0] == args@[i as int]@);
        assert(rest.drop_first() =~= all.subrange(i + 1, all.len() as int));
        match strip_prefix(args[i].as_str(), "--") {
            None => {
                assert(option_name(rest[0]) is None);
                i = i + 1;
            },
            Some(name) => {
                assert(option_name(rest[0]) == Some(name@));
                let key = name.to_owned();
                let takes_value = i + 1 < args.len() && strip_prefix(
                    args[i + 1].as_str(),
                    "--",
                ).is_none();
                if takes_value {
                    assert(rest[1] == args@[i + 1]@);
                    assert(option_name(rest[1]) is None);
                    assert(rest.subrange(2, rest.len() as int) =~= all.subrange(
                        i + 2,
                        all.len() as int,
                    ));
                    let ghost o = (name@, Some(rest[1]));
                    entries.push((key, PropValue::Str(args[i + 1].clone())));
                    assert(cli_overrides(all).subrange(0, entries@.len() as int) =~= done.push(o));
                    i = i + 2;
                } else {
                    let ghost o = (name@, None::<Seq<char>>);
                    assert(!(rest.len() >= 2 && option_name(rest[1]) is None)) by {
                        if rest.len() >= 2 {
                            assert(rest[1] == args@[i + 1]@);
                        }
                    }
                    entries.push((key, PropValue::Bool(true)));
                    assert(cli_overrides(all).subrange(0, entries@.len() as int) =~= done.push(o));
                    i = i + 1;
                }
            },
        }
    }
    assert(cli_overrides(all).subrange(0, entries@.len() as int) =~= cli_overrides(all));
    Layer { entries }
}

} // verus!
