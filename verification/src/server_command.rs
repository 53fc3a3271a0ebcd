//! How an editor extension starts the language server: which binary, with
//! which arguments, and with which environment.

use vstd::prelude::*;
use vstd::string::StringExecFns;
use vstd::utf8::*;

verus! {

/// Name of the language server's executable.
pub const SERVER_BINARY: &'static str = "lalrpop-lsp";

/// The user's settings for the server binary.
#[derive(Debug)]
pub struct CommandSettings {
    pub path: Option<String>,
    pub arguments: Option<Vec<String>>,
    pub env: Option<Vec<(String, String)>>,
}

/// A command to run.
#[derive(Debug)]
pub struct Command {
    pub command: String,
    pub args: Vec<String>,
    pub env: Vec<(String, String)>,
}

/// `x` orders before `y`, comparing bytes in turn (a proper prefix first).
pub open spec fn bytes_lt(x: Seq<u8>, y: Seq<u8>) -> bool
    decreases x.len(),
{
    if x.len() == 0 {
        y.len() > 0
    } else if y.len() == 0 {
        false
    } else if x[0] != y[0] {
        x[0] < y[0]
    } else {
        bytes_lt(x.drop_first(), y.drop_first())
    }
}

/// The string `a` orders before the string `b`.
pub open spec fn key_lt(a: Seq<char>, b: Seq<char>) -> bool {
    bytes_lt(encode_utf8(a), encode_utf8(b))
}

proof fn lemma_bytes_lt_irreflexive(x: Seq<u8>)
    ensures
        !bytes_lt(x, x),
    decreases x.len(),
{
    if x.len() > 0 {
        lemma_bytes_lt_irreflexive(x.drop_first());
    }
}

proof fn lemma_bytes_lt_transitive(x: Seq<u8>, y: Seq<u8>, z: Seq<u8>)
    requires
        bytes_lt(x, y),
        bytes_lt(y, z),
    ensures
        bytes_lt(x, z),
    decreases x.len(),
{
    if x.len() > 0 && y.len() > 0 && z.len() > 0 && x[0] == y[0] && y[0] == z[0] {
        lemma_bytes_lt_transitive(x.drop_first(), y.drop_first(), z.drop_first());
    }
}

proof fn lemma_bytes_lt_total(x: Seq<u8>, y: Seq<u8>)
    ensures
        x == y || bytes_lt(x, y) || bytes_lt(y, x),
    decreases x.len(),
{
    if x.len() > 0 && y.len() > 0 && x[0] == y[0] {
        lemma_bytes_lt_total(x.drop_first(), y.drop_first());
        if x.drop_first() == y.drop_first() {
            assert(x =~= seq![x[0]] + x.drop_first());
            assert(y =~= seq![y[0]] + y.drop_first());
        }
    } else if x.len() == 0 && y.len() == 0 {
        assert(x =~= y);
    }
}

/// Keys that differ compare one way or the other.
proof fn lemma_key_lt_total(a: Seq<char>, b: Seq<char>)
    ensures
        a == b || key_lt(a, b) || key_lt(b, a),
{
    lemma_bytes_lt_total(encode_utf8(a), encode_utf8(b));
    if encode_utf8(a) == encode_utf8(b) {
        encode_utf8_decode_utf8(a);
        encode_utf8_decode_utf8(b);
    }
}

/// Whether the string `a` orders before the string `b`.
fn str_lt(a: &str, b: &str) -> (r: bool)
    ensures
        r == key_lt(a@, b@),
{
    let x = a.as_bytes();
    let y = b.as_bytes();
    let mut i: usize = 0;
    assert(x@.skip(0) =~= x@);
    assert(y@.skip(0) =~= y@);
    while i < x.len() && i < y.len() && x[i] == y[i]
        invariant
            i <= x@.len(),
            i <= y@.len(),
            x@ == encode_utf8(a@),
            y@ == encode_utf8(b@),
            bytes_lt(x@, y@) == bytes_lt(x@.skip(i as int), y@.skip(i as int)),
        decreases x@.len() - i,
    {
        assert(x@.skip(i as int).drop_first() =~= x@.skip(i + 1));
        assert(y@.skip(i as int).drop_first() =~= y@.skip(i + 1));
        i = i + 1;
    }
    if i < x.len() && i < y.len() {
        x[i] < y[i]
    } else {
        i == x.len() && i < y.len()
    }
}

/// Some entry of `env` has the key `k`.
pub open spec fn has_key(env: Seq<(String, String)>, k: Seq<char>) -> bool {
    exists|i: int| 0 <= i < env.len() && env[i].0@ == k
}

/// The value of the last entry of `entries` whose key is `k`.
pub open spec fn env_lookup(entries: Seq<(String, String)>, k: Seq<char>) -> Option<Seq<char>>
    decreases entries.len(),
{
    if entries.len() == 0 {
        None
    } else if entries.last().0@ == k {
        Some(entries.last().1@)
    } else {
        env_lookup(entries.drop_last(), k)
    }
}

/// The value of `k` in the shell's environment `shell` once `overrides`
/// have been applied over it.
pub open spec fn merged_value(
    shell: Seq<(String, String)>,
    overrides: Seq<(String, String)>,
    k: Seq<char>,
) -> Option<Seq<char>> {
    match env_lookup(overrides, k) {
        Some(v) => Some(v),
        None => env_lookup(shell, k),
    }
}

/// The values of `base` with `entries` set over them.
pub open spec fn overlay(
    entries: Seq<(String, String)>,
    base: spec_fn(Seq<char>) -> Option<Seq<char>>,
) -> spec_fn(Seq<char>) -> Option<Seq<char>> {
    |k: Seq<char>|
        match env_lookup(entries, k) {
            Some(v) => Some(v),
            None => base(k),
        }
}

/// No variable has a value.
pub open spec fn no_variables() -> spec_fn(Seq<char>) -> Option<Seq<char>> {
    |k: Seq<char>| None
}

/// The values of the shell's environment `shell` with `overrides` set over it.
pub open spec fn merged_environment(
    shell: Seq<(String, String)>,
    overrides: Seq<(String, String)>,
) -> spec_fn(Seq<char>) -> Option<Seq<char>> {
    |k: Seq<char>| merged_value(shell, overrides, k)
}

/// `env` holds, in ascending order of keys, each key exactly once, with the
/// value that `value_of` gives it, and all keys that `value_of` gives a value.
pub open spec fn is_sorted_environment(
    env: Seq<(String, String)>,
    value_of: spec_fn(Seq<char>) -> Option<Seq<char>>,
) -> bool {
    &&& forall|i: int, j: int| 0 <= i < j < env.len() ==> key_lt(env[i].0@, env[j].0@)
    &&& forall|i: int| 0 <= i < env.len() ==> value_of(env[i].0@) == Some(env[i].1@)
    &&& forall|k: Seq<char>| #[trigger] value_of(k) is Some ==> has_key(env, k)
}

/// Sets `key` to `value` in the environment `env`, kept in ascending order of
/// keys.
fn insert_variable(env: &mut Vec<(String, String)>, key: String, value: String)
    requires
        forall|i: int, j: int| 0 <= i < j < old(env)@.len() ==> key_lt(old(env)@[i].0@, old(env)@[j].0@),
    ensures
        forall|i: int, j: int| 0 <= i < j < final(env)@.len() ==> key_lt(final(env)@[i].0@, final(env)@[j].0@),
        forall|k: Seq<char>|
            #[trigger] has_key(final(env)@, k) <==> (k == key@ || has_key(old(env)@, k)),
        forall|i: int|
            0 <= i < final(env)@.len() ==> final(env)@[i].1@ == if final(env)@[i].0@ == key@ {
                value@
            } else {
                choose_value(old(env)@, final(env)@[i].0@)
            },
{
    let ghost before = env@;
    let mut p: usize = 0;
    while p < env.len() && str_lt(env[p].0.as_str(), key.as_str())
        invariant
            env@ == before,
            p <= env@.len(),
            forall|i: int| 0 <= i < p ==> key_lt(env@[i].0@, key@),
        decreases env@.len() - p,
    {
        p = p + 1;
    }
    proof {
        if p < before.len() {
            lemma_key_lt_total(before[p as int].0@, key@);
        }
        assert forall|i: int| 0 <= i < before.len() && before[i].0@ == key@ implies i == p by {
            if i < p {
                lemma_bytes_lt_irreflexive(encode_utf8(key@));
            } else if i > p {
                lemma_bytes_lt_transitive(encode_utf8(key@), encode_utf8(before[p as int].0@), encode_utf8(before[i].0@));
                lemma_bytes_lt_irreflexive(encode_utf8(key@));
            }
        }
    }
    if p < env.len() && crate::text::str_eq(env[p].0.as_str(), key.as_str()) {
        env.set(p, (key, value));
        proof {
            assert forall|k: Seq<char>|
                #[trigger] has_key(env@, k) <==> (k == key@ || has_key(before, k)) by {
                if has_key(before, k) {
                    let i = choose|i: int| 0 <= i < before.len() && before[i].0@ == k;
                    assert(env@[i].0@ == k);
                }
                if has_key(env@, k) {
                    let i = choose|i: int| 0 <= i < env@.len() && env@[i].0@ == k;
                    assert(before[i].0@ == k);
                }
                if k == key@ {
                    assert(env@[p as int].0@ == k);
                }
            }
            assert forall|i: int, j: int| 0 <= i < j < env@.len() implies key_lt(env@[i].0@, env@[j].0@) by {
                assert(env@[i].0@ == before[i].0@);
                assert(env@[j].0@ == before[j].0@);
            }
            assert forall|i: int| 0 <= i < env@.len() implies env@[i].1@ == if env@[i].0@ == key@ {
                value@
            } else {
                choose_value(before, env@[i].0@)
            } by {
                if i != p {
                    lemma_choose_value_unique(before, i);
                }
            }
        }
    } else {
        env.insert(p, (key, value));
        proof {
            assert forall|i: int, j: int| 0 <= i < j < env@.len() implies key_lt(env@[i].0@, env@[j].0@) by {
                if i == p as int {
                    if j > p + 1 {
                        assert(key_lt(before[p as int].0@, before[j - 1].0@));
                        lemma_bytes_lt_transitive(encode_utf8(key@), encode_utf8(before[p as int].0@), encode_utf8(before[j - 1].0@));
                    }
                } else if j == p as int {
                    if i + 1 < p {
                        assert(key_lt(before[i].0@, before[p - 1].0@));
                        lemma_bytes_lt_transitive(encode_utf8(before[i].0@), encode_utf8(before[p - 1].0@), encode_utf8(key@));
                    }
                } else if i < p && j > p {
                    assert(key_lt(before[i].0@, key@));
                    if p < before.len() {
                        lemma_bytes_lt_transitive(encode_utf8(before[i].0@), encode_utf8(key@), encode_utf8(before[p as int].0@));
                        if j - 1 > p {
                            assert(key_lt(before[p as int].0@, before[j - 1].0@));
                            lemma_bytes_lt_transitive(encode_utf8(before[i].0@), encode_utf8(before[p as int].0@), encode_utf8(before[j - 1].0@));
                        }
                    }
                }
            }
            assert forall|k: Seq<char>|
                #[trigger] has_key(env@, k) <==> (k == key@ || has_key(before, k)) by {
                if has_key(before, k) {
                    let i = choose|i: int| 0 <= i < before.len() && before[i].0@ == k;
                    if i < p {
                        assert(env@[i].0@ == k);
                    } else {
                        assert(env@[i + 1].0@ == k);
                    }
                }
                if k == key@ {
                    assert(env@[p as int].0@ == k);
                }
            }
            assert forall|i: int| 0 <= i < env@.len() implies env@[i].1@ == if env@[i].0@ == key@ {
                value@
            } else {
                choose_value(before, env@[i].0@)
            } by {
                if i < p {
                    lemma_choose_value_unique(before, i);
                } else if i > p {
                    lemma_choose_value_unique(before, i - 1);
                }
            }
        }
    }
}

/// The value of the entry with key `k` in an environment with distinct keys.
pub open spec fn choose_value(env: Seq<(String, String)>, k: Seq<char>) -> Seq<char> {
    env[choose|i: int| 0 <= i < env.len() && env[i].0@ == k].1@
}

proof fn lemma_choose_value_unique(env: Seq<(String, String)>, i: int)
    requires
        forall|a: int, b: int| 0 <= a < b < env.len() ==> key_lt(env[a].0@, env[b].0@),
        0 <= i < env.len(),
    ensures
        choose_value(env, env[i].0@) == env[i].1@,
{
    let k = env[i].0@;
    assert(0 <= i < env.len() && env[i].0@ == k);
    let j = choose|j: int| 0 <= j < env.len() && env[j].0@ == k;
    lemma_bytes_lt_irreflexive(encode_utf8(k));
    if j < i {
        assert(key_lt(env[j].0@, env[i].0@));
    } else if j > i {
        assert(key_lt(env[i].0@, env[j].0@));
    }
}

/// `env` is the sorted environment of `base` with `entries` set over it.
fn set_variables(
    env: &mut Vec<(String, String)>,
    entries: &Vec<(String, String)>,
    Ghost(base): Ghost<spec_fn(Seq<char>) -> Option<Seq<char>>>,
)
    requires
        is_sorted_environment(old(env)@, base),
    ensures
        is_sorted_environment(final(env)@, overlay(entries@, base)),
{
    let mut i: usize = 0;
    while i < entries.len()
        invariant
            i <= entries@.len(),
            is_sorted_environment(env@, overlay(entries@.take(i as int), base)),
        decreases entries@.len() - i,
    {
        let ghost before = env@;
        let ghost prefix = entries@.take(i as int);
        let ghost next = entries@.take(i + 1);
        let ghost value_before = overlay(prefix, base);
        let ghost value_after = overlay(next, base);
        assert(next.drop_last() =~= prefix);
        let key = entries[i].0.clone();
        let value = entries[i].1.clone();
        insert_variable(env, key, value);
        proof {
            assert forall|j: int| 0 <= j < env@.len() implies value_after(env@[j].0@) == Some(
                env@[j].1@,
            ) by {
                let k = env@[j].0@;
                if k != entries@[i as int].0@ {
                    assert(has_key(env@, k));
                    assert(has_key(before, k));
                    let idx = choose|idx: int| 0 <= idx < before.len() && before[idx].0@ == k;
                    assert(value_before(before[idx].0@) == Some(before[idx].1@));
                }
            }
            assert forall|k: Seq<char>| #[trigger] value_after(k) is Some implies has_key(env@, k) by {
                if k != entries@[i as int].0@ {
                    assert(value_before(k) is Some);
                }
            }
        }
        i = i + 1;
    }
    assert(entries@.take(entries@.len() as int) =~= entries@);
}

/// The environment of the shell, `shell`, with `overrides` set over it: each
/// variable once, in ascending order of names.
pub fn merge_environment(shell: &Vec<(String, String)>, overrides: &Option<Vec<(String, String)>>) -> (env: Vec<
    (String, String),
>)
    ensures
        is_sorted_environment(
            env@,
            merged_environment(
                shell@,
                match overrides {
                    Some(o) => o@,
                    None => Seq::empty(),
                },
            ),
        ),
{
    let mut env: Vec<(String, String)> = Vec::new();
    set_variables(&mut env, shell, Ghost(no_variables()));
    let empty: Vec<(String, String)> = Vec::new();
    let o = match overrides {
        Some(o) => o,
        None => &empty,
    };
    set_variables(&mut env, o, Ghost(overlay(shell@, no_variables())));
    proof {
        let reached = overlay(o@, overlay(shell@, no_variables()));
        let merged = merged_environment(shell@, o@);
        assert forall|k: Seq<char>| #[trigger] merged(k) == reached(k) by {
        }
        assert(merged =~= reached);
    }
    env
}

/// The message shown when the server binary can be found nowhere.
pub open spec fn not_found_message() -> Seq<char> {
    "lalrpop-lsp was not found in PATH. Install it with `cargo install --git https://github.com/LighghtEeloo/lalrpop-lsp.git --locked`, or configure `lsp.lalrpop-lsp.binary.path` in Zed settings."@
}

/// The command that starts the language server: the configured binary, or
/// the one that `which` finds on the path, with the configured arguments and
/// the shell's environment (`shell_env`) with the configured variables set
/// over it.
pub fn language_server_command<W: Fn() -> Option<String>, E: Fn() -> Vec<(String, String)>>(
    binary: Option<CommandSettings>,
    which: W,
    shell_env: E,
) -> (r: Result<Command, String>)
    requires
        call_requires(which, ()),
        call_requires(shell_env, ()),
    ensures
        match binary {
            Some(CommandSettings { path: Some(path), .. }) => r matches Ok(c) && c.command@ == path@,
            _ => exists|found: Option<String>|
                #![trigger call_ensures(which, (), found)]
                {
                    &&& call_ensures(which, (), found)
                    &&& match found {
                        Some(command) => r matches Ok(c) && c.command@ == command@,
                        None => r matches Err(message) && message@ == not_found_message(),
                    }
                },
        },
        r matches Ok(c) ==> {
            &&& c.args@ == match binary {
                Some(CommandSettings { arguments: Some(args), .. }) => args@,
                _ => Seq::empty(),
            }
            &&& exists|shell: Vec<(String, String)>|
                #![trigger call_ensures(shell_env, (), shell)]
                {
                    &&& call_ensures(shell_env, (), shell)
                    &&& is_sorted_environment(
                        c.env@,
                        merged_environment(
                            shell@,
                            match binary {
                                Some(CommandSettings { env: Some(overrides), .. }) => overrides@,
                                _ => Seq::empty(),
                            },
                        ),
                    )
                }
        },
{
    let (path, arguments, overrides) = match binary {
        Some(settings) => (settings.path, settings.arguments, settings.env),
        None => (None, None, None),
    };
    let command = match path {
        Some(path) => path,
        None => match which() {
            Some(found) => found,
            None => {
                return Err(
                    String::from_str(
                        "lalrpop-lsp was not found in PATH. Install it with `cargo install --git https://github.com/LighghtEeloo/lalrpop-lsp.git --locked`, or configure `lsp.lalrpop-lsp.binary.path` in Zed settings.",
                    ),
                );
            },
        },
    };
    let args = match arguments {
        Some(args) => args,
        None => Vec::new(),
    };
    let shell = shell_env();
    let env = merge_environment(&shell, &overrides);
    Ok(Command { command, args, env })
}

} // verus!
