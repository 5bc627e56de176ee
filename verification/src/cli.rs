//! Decisions behind the `ghola` command line: scanning arguments, naming
//! revisions, which files a command may touch and how HEAD moves. Reading
//! and writing the working directory, the clock and printing stay with the
//! program that calls these.

use vstd::prelude::*;
use vstd::string::{StrSliceExecFns, StringSliceAdditionalSpecFns};
use vstd::utf8::{decode_utf8_encode_utf8, encode_utf8, encode_utf8_decode_utf8, valid_utf8};

use crate::bytes::{ascii_chars, bytes_eq, copy_range, string_of_ascii};
use crate::digest::sha256;
use crate::graph::{commit_at, id_views};
use crate::object::{encode_view, hex_bytes, CommitView, Object, ObjectId, ObjectView};
use crate::repo::{
    head_commit_of, head_key, ids_spec, merge_head_key, obj_key_spec, ref_key, valid_ref_name_spec, Head, Repo,
    RepoError,
};
use crate::snapshot::{has_path, lookup, Files, Listing};

verus! {

/// What the command line takes from its environment.
pub struct Env {
    /// A fixed commit time, in place of the clock.
    pub timestamp: Option<u64>,
    /// The author to record when none is given on the command line.
    pub author: Option<String>,
}

impl Env {
    /// The commit time: the fixed timestamp if there is one, else `clock`.
    pub fn now(&self, clock: u64) -> (r: u64)
        ensures
            r == match self.timestamp {
                Some(t) => t,
                None => clock,
            },
    {
        match self.timestamp {
            Some(t) => t,
            None => clock,
        }
    }
}

/// A failed command, with the message to show.
#[derive(Debug)]
pub struct CliError(pub String);

/// Equality of two strings.
pub fn str_eq(a: &str, b: &str) -> (r: bool)
    ensures
        r == (a@ == b@),
{
    proof {
        encode_utf8_decode_utf8(a@);
        encode_utf8_decode_utf8(b@);
    }
    bytes_eq(a.as_bytes(), b.as_bytes())
}

/// The characters of each argument.
pub open spec fn arg_views(args: Seq<String>) -> Seq<Seq<char>> {
    args.map_values(|s: String| s@)
}

/// The argument after the first occurrence of `flag`, if both are there.
pub open spec fn flag_value(av: Seq<Seq<char>>, flag: Seq<char>) -> Option<Seq<char>>
    decreases av.len(),
{
    if av.len() == 0 {
        None
    } else if av[0] == flag {
        if av.len() > 1 {
            Some(av[1])
        } else {
            None
        }
    } else {
        flag_value(av.drop_first(), flag)
    }
}

/// The value given for `flag`: the argument after its first occurrence.
pub fn opt(args: &[String], flag: &str) -> (r: Option<String>)
    ensures
        match flag_value(arg_views(args@), flag@) {
            Some(v) => r matches Some(s) && s@ == v,
            None => r is None,
        },
{
    let ghost av = arg_views(args@);
    let mut i: usize = 0;
    assert(av.skip(0) =~= av);
    while i < args.len()
        invariant
            i <= args@.len(),
            av == arg_views(args@),
            flag_value(av, flag@) == flag_value(av.skip(i as int), flag@),
        decreases args@.len() - i,
    {
        assert(av.skip(i as int)[0] == args@[i as int]@);
        if str_eq(args[i].as_str(), flag) {
            if i + 1 < args.len() {
                assert(av.skip(i as int)[1] == args@[i + 1]@);
                return Some(args[i + 1].clone());
            }
            return None;
        }
        assert(av.skip(i as int).drop_first() =~= av.skip(i + 1));
        i = i + 1;
    }
    None
}

/// `a` begins with `--`.
pub open spec fn is_long_flag(a: Seq<char>) -> bool {
    a.len() >= 2 && a[0] == '-' && a[1] == '-'
}

/// A flag whose value is the next argument.
pub open spec fn takes_value(a: Seq<char>) -> bool {
    a == "--name"@ || a == "--loss"@ || a == "--seed"@ || a == "--author"@
}

/// The arguments that are neither flags nor the value of a flag, in order.
pub open spec fn positionals_spec(av: Seq<Seq<char>>) -> Seq<Seq<char>>
    decreases av.len(),
{
    if av.len() == 0 {
        seq![]
    } else {
        let i = av.len() - 1;
        positionals_spec(av.drop_last()) + if !is_long_flag(av[i]) && !(i > 0 && takes_value(av[i - 1])) {
            seq![av[i]]
        } else {
            Seq::<Seq<char>>::empty()
        }
    }
}

fn is_long_flag_exec(a: &str) -> (r: bool)
    ensures
        r == is_long_flag(a@),
{
    a.unicode_len() >= 2 && a.get_char(0) == '-' && a.get_char(1) == '-'
}

fn takes_value_exec(a: &str) -> (r: bool)
    ensures
        r == takes_value(a@),
{
    str_eq(a, "--name") || str_eq(a, "--loss") || str_eq(a, "--seed") || str_eq(a, "--author")
}

/// The arguments that are neither flags (`--x`) nor the value of one of the
/// flags that take a value, in order.
pub fn positionals(args: &[String]) -> (r: Vec<String>)
    ensures
        arg_views(r@) == positionals_spec(arg_views(args@)),
{
    let ghost av = arg_views(args@);
    let mut out: Vec<String> = Vec::new();
    let mut i: usize = 0;
    while i < args.len()
        invariant
            i <= args@.len(),
            av == arg_views(args@),
            arg_views(out@) == positionals_spec(av.take(i as int)),
        decreases args@.len() - i,
    {
        let ghost before = arg_views(out@);
        let keep = !is_long_flag_exec(args[i].as_str()) && !(i > 0 && takes_value_exec(args[i - 1].as_str()));
        if keep {
            out.push(args[i].clone());
        }
        proof {
            let t = av.take(i + 1);
            assert(t.drop_last() =~= av.take(i as int));
            assert(t[i as int] == args@[i as int]@);
            if i > 0 {
                assert(t[i - 1] == args@[i - 1]@);
            }
            if keep {
                assert(arg_views(out@) =~= before.push(args@[i as int]@));
            } else {
                assert(arg_views(out@) =~= before);
            }
        }
        i = i + 1;
    }
    assert(av.take(args@.len() as int) =~= av);
    out
}

/// The abbreviated id: its first seven hexadecimal digits.
pub fn short(id: &ObjectId) -> (r: String)
    ensures
        r@ == ascii_chars(hex_bytes(id@).take(7)),
{
    let hex = id.hex_digits();
    let head = copy_range(hex.as_slice(), 0, 7);
    assert(head@ =~= hex@.take(7));
    string_of_ascii(head)
}

// ---- revisions ----

/// Why a revision could not be resolved.
#[derive(Debug)]
pub enum RevError {
    /// What follows the last `~` is not a count.
    BadCount,
    /// HEAD is on a branch with no commits yet.
    NoCommits,
    /// A hexadecimal prefix matches more than one commit.
    Ambiguous,
    /// Nothing goes by that name.
    Unknown,
    /// The first-parent history ends before that many steps back.
    TooShort,
    /// The repository could not be read.
    Repo(RepoError),
}

/// The position of the last `~` in `s`, if there is one.
pub open spec fn last_tilde(s: Seq<char>) -> Option<int>
    decreases s.len(),
{
    if s.len() == 0 {
        None
    } else if s.last() == '~' {
        Some(s.len() - 1)
    } else {
        last_tilde(s.drop_last())
    }
}

/// A decimal digit.
pub open spec fn is_digit(c: char) -> bool {
    '0' <= c <= '9'
}

/// The value of a string of decimal digits.
pub open spec fn digits_value(d: Seq<char>) -> nat
    decreases d.len(),
{
    if d.len() == 0 {
        0
    } else {
        digits_value(d.drop_last()) * 10 + ((d.last() as nat) - 48) as nat
    }
}

/// A count as `usize::from_str` reads it: an optional `+`, then one or
/// more decimal digits, with a value that fits.
pub open spec fn parse_count(s: Seq<char>) -> Option<usize> {
    let d = count_digits(s);
    if d.len() > 0 && (forall|i: int| 0 <= i < d.len() ==> is_digit(#[trigger] d[i])) && digits_value(d)
        <= usize::MAX {
        Some(digits_value(d) as usize)
    } else {
        None
    }
}

/// The digits of a count: the text after a leading `+`, if any.
pub open spec fn count_digits(s: Seq<char>) -> Seq<char> {
    if s.len() > 0 && s[0] == '+' {
        s.drop_first()
    } else {
        s
    }
}

/// A revision split into a name and a count of first-parent steps back:
/// `NAME~N` when a `~` follows a non-empty name, else the whole text with
/// no steps. `None` when the count after `~` is not one.
pub open spec fn rev_parts(s: Seq<char>) -> Option<(Seq<char>, usize)> {
    match last_tilde(s) {
        Some(k) => if k > 0 {
            match parse_count(s.subrange(k + 1, s.len() as int)) {
                Some(n) => Some((s.take(k), n)),
                None => None,
            }
        } else {
            Some((s, 0))
        },
        None => Some((s, 0)),
    }
}

proof fn lemma_last_tilde(s: Seq<char>)
    ensures
        match last_tilde(s) {
            Some(k) => 0 <= k < s.len() && s[k] == '~' && forall|j: int| k < j < s.len() ==> s[j] != '~',
            None => forall|j: int| 0 <= j < s.len() ==> s[j] != '~',
        },
    decreases s.len(),
{
    if s.len() > 0 && s.last() != '~' {
        lemma_last_tilde(s.drop_last());
        assert forall|j: int| 0 <= j < s.len() - 1 implies s[j] == s.drop_last()[j] by {}
    }
}

proof fn lemma_digits_prefix(d: Seq<char>, m: int)
    requires
        0 <= m <= d.len(),
    ensures
        digits_value(d.take(m)) <= digits_value(d),
    decreases d.len() - m,
{
    if m < d.len() {
        lemma_digits_prefix(d, m + 1);
        assert(d.take(m + 1).drop_last() =~= d.take(m));
    } else {
        assert(d.take(m) =~= d);
    }
}

/// Reads a count the way `usize::from_str` does.
fn parse_count_exec(s: &str) -> (r: Option<usize>)
    ensures
        r == parse_count(s@),
{
    let n = s.unicode_len();
    let start: usize = if n > 0 && s.get_char(0) == '+' {
        1
    } else {
        0
    };
    let ghost d = count_digits(s@);
    assert(d =~= s@.subrange(start as int, n as int));
    if start == n {
        return None;
    }
    let mut v: usize = 0;
    let mut i: usize = start;
    while i < n
        invariant
            start < n,
            n == s@.len(),
            start <= i <= n,
            d == count_digits(s@),
            d =~= s@.subrange(start as int, n as int),
            forall|j: int| start <= j < i ==> is_digit(#[trigger] s@[j]),
            v == digits_value(d.take(i - start)),
        decreases n - i,
    {
        let c = s.get_char(i);
        assert(d[i - start] == c);
        if !('0' <= c && c <= '9') {
            assert(!is_digit(d[i - start]));
            return None;
        }
        let dig = (c as u32 - 48) as usize;
        assert(d.take(i + 1 - start).drop_last() =~= d.take(i - start));
        assert(d.take(i + 1 - start).last() == c);
        let prod = v.checked_mul(10);
        let next = match prod {
            Some(p) => p.checked_add(dig),
            None => None,
        };
        match next {
            Some(x) => {
                v = x;
            },
            None => {
                proof {
                    assert(digits_value(d.take(i + 1 - start)) > usize::MAX);
                    lemma_digits_prefix(d, i + 1 - start);
                }
                return None;
            },
        }
        i = i + 1;
    }
    assert(d.take(n - start) =~= d);
    Some(v)
}

/// Splits `NAME~N` into the name and the count.
fn split_rev(spec: &str) -> (r: Option<(&str, usize)>)
    ensures
        match rev_parts(spec@) {
            Some((name, n)) => r matches Some((s, m)) && s@ == name && m == n,
            None => r is None,
        },
{
    let n = spec.unicode_len();
    proof {
        lemma_last_tilde(spec@);
    }
    let mut k: usize = n;
    while k > 0 && spec.get_char(k - 1) != '~'
        invariant
            k <= n,
            n == spec@.len(),
            forall|j: int| k <= j < n ==> spec@[j] != '~',
        decreases k,
    {
        k = k - 1;
    }
    if k <= 1 {
        // no `~`, or only one that opens the text
        return Some((spec, 0));
    }
    let at = k - 1;
    match parse_count_exec(spec.substring_char(k, n)) {
        Some(steps) => Some((spec.substring_char(0, at), steps)),
        None => None,
    }
}

/// A hexadecimal digit of either case.
pub open spec fn is_hex_char(c: char) -> bool {
    ('0' <= c <= '9') || ('a' <= c <= 'f') || ('A' <= c <= 'F')
}

/// A name that may abbreviate a commit id: four or more hexadecimal digits.
pub open spec fn hex_name(n: Seq<char>) -> bool {
    n.len() >= 4 && forall|i: int| 0 <= i < n.len() ==> is_hex_char(#[trigger] n[i])
}

/// ASCII characters as lowercase ASCII bytes.
pub open spec fn lower_ascii(n: Seq<char>) -> Seq<u8> {
    n.map_values(|c: char| if 'A' <= c <= 'Z' { ((c as u8) + 32) as u8 } else { c as u8 })
}

/// A stored commit whose id, in hexadecimal, begins with `p`.
pub open spec fn prefix_hit(l: Listing, p: Seq<u8>, x: Seq<u8>) -> bool {
    &&& ids_spec(l).contains(x)
    &&& p.is_prefix_of(hex_bytes(x))
    &&& commit_at(l, x) is Some
}

/// The id a ref holds, if it is set to one.
pub open spec fn ref_id(l: Listing, name: Seq<char>) -> Option<Seq<u8>> {
    match lookup(l, ref_key(encode_utf8(name))) {
        Some(x) => if x.len() == 32 {
            Some(x)
        } else {
            None
        },
        None => None,
    }
}

/// `name` stands for the commit `x`: HEAD's commit, else the ref of that
/// name, else the one stored commit whose id the name abbreviates.
pub open spec fn names(l: Listing, name: Seq<char>, x: Seq<u8>) -> bool {
    if name == "HEAD"@ {
        head_commit_of(l) == Some(Some(x))
    } else if ref_id(l, name) is Some {
        ref_id(l, name) == Some(x)
    } else {
        &&& hex_name(name)
        &&& prefix_hit(l, lower_ascii(name), x)
        &&& forall|y: Seq<u8>| #[trigger] prefix_hit(l, lower_ascii(name), y) ==> y == x
    }
}

/// The revision text `s` resolves to the commit `x`.
pub open spec fn resolves_to(l: Listing, s: Seq<char>, x: Seq<u8>) -> bool {
    match rev_parts(s) {
        Some((name, n)) => exists|base: Seq<u8>| #[trigger] names(l, name, base) && steps_back(l, base, n as nat) == Some(x),
        None => false,
    }
}

/// `n` first-parent steps back from `x`, if the history is that long and
/// readable.
pub open spec fn steps_back(l: Listing, x: Seq<u8>, n: nat) -> Option<Seq<u8>>
    decreases n,
{
    if n == 0 {
        Some(x)
    } else {
        match commit_at(l, x) {
            Some(c) => if c.parents.len() > 0 {
                steps_back(l, c.parents[0], (n - 1) as nat)
            } else {
                None
            },
            None => None,
        }
    }
}

/// Going `n` first-parent steps back from `x` reaches a readable commit
/// with no parents before it is done.
pub open spec fn ends_early(l: Listing, x: Seq<u8>, n: nat) -> bool
    decreases n,
{
    n > 0 && match commit_at(l, x) {
        Some(c) => if c.parents.len() > 0 {
            ends_early(l, c.parents[0], (n - 1) as nat)
        } else {
            true
        },
        None => false,
    }
}

/// `p` begins the hexadecimal id of `id`.
fn hex_prefix(p: &Vec<u8>, id: &ObjectId) -> (r: bool)
    ensures
        r == p@.is_prefix_of(hex_bytes(id@)),
{
    let hex = id.hex_digits();
    if p.len() > hex.len() {
        return false;
    }
    let head = copy_range(hex.as_slice(), 0, p.len());
    bytes_eq(p.as_slice(), head.as_slice())
}

/// The lowercase ASCII bytes of a name of ASCII characters.
fn lower_ascii_exec(name: &str) -> (r: Vec<u8>)
    requires
        forall|i: int| 0 <= i < name@.len() ==> (#[trigger] name@[i] as u32) < 128,
    ensures
        r@ == lower_ascii(name@),
{
    let n = name.unicode_len();
    let mut out: Vec<u8> = Vec::new();
    let mut i: usize = 0;
    while i < n
        invariant
            n == name@.len(),
            i <= n,
            forall|j: int| 0 <= j < name@.len() ==> (#[trigger] name@[j] as u32) < 128,
            out@ =~= lower_ascii(name@).take(i as int),
        decreases n - i,
    {
        let c = name.get_char(i);
        assert((c as u32) < 128);
        let b = c as u32 as u8;
        let low: u8 = if 'A' <= c && c <= 'Z' {
            b + 32
        } else {
            b
        };
        out.push(low);
        i = i + 1;
    }
    out
}

/// `name` consists of four or more hexadecimal digits.
fn hex_name_exec(name: &str) -> (r: bool)
    ensures
        r == hex_name(name@),
{
    let n = name.unicode_len();
    if n < 4 {
        return false;
    }
    let mut i: usize = 0;
    while i < n
        invariant
            n == name@.len(),
            i <= n,
            forall|j: int| 0 <= j < i ==> is_hex_char(#[trigger] name@[j]),
        decreases n - i,
    {
        let c = name.get_char(i);
        if !(('0' <= c && c <= '9') || ('a' <= c && c <= 'f') || ('A' <= c && c <= 'F')) {
            return false;
        }
        i = i + 1;
    }
    true
}

impl Repo {
    /// The commit a name stands for: `HEAD`, a ref, or a unique abbreviation
    /// (four or more hexadecimal digits) of a stored commit's id.
    pub fn resolve_name(&self, name: &str) -> (r: Result<ObjectId, RevError>)
        requires
            self.wf(),
        ensures
            r matches Ok(id) ==> names(self@, name@, id@),
            (exists|x: Seq<u8>| names(self@, name@, x)) ==> r is Ok,
            r matches Err(RevError::Repo(e)) ==> name@ == "HEAD"@ && head_commit_of(self@) is None && e
                == RepoError::BadHead,
            r matches Err(RevError::NoCommits) <==> name@ == "HEAD"@ && head_commit_of(self@) == Some(
                None::<Seq<u8>>,
            ),
            r matches Err(RevError::Ambiguous) <==> name@ != "HEAD"@ && ref_id(self@, name@) is None && hex_name(
                name@,
            ) && exists|x: Seq<u8>, y: Seq<u8>|
                #[trigger] prefix_hit(self@, lower_ascii(name@), x) && #[trigger] prefix_hit(
                    self@,
                    lower_ascii(name@),
                    y,
                ) && x != y,
            r is Ok || r matches Err(RevError::Repo(_)) || r matches Err(RevError::NoCommits) || r matches Err(
                RevError::Ambiguous,
            ) || r matches Err(RevError::Unknown),
    {
        let ghost l = self@;
        proof {
            reveal_strlit("HEAD");
        }
        if str_eq(name, "HEAD") {
            return match self.head_commit() {
                Err(e) => Err(RevError::Repo(e)),
                Ok(None) => Err(RevError::NoCommits),
                Ok(Some(id)) => Ok(id),
            };
        }
        match self.get_ref(name) {
            Some(id) => {
                return Ok(id);
            },
            None => {},
        }
        assert(ref_id(l, name@) is None);
        if !hex_name_exec(name) {
            return Err(RevError::Unknown);
        }
        proof {
            assert forall|i: int| 0 <= i < name@.len() implies (#[trigger] name@[i] as u32) < 128 by {
                assert(is_hex_char(name@[i]));
            }
        }
        let p = lower_ascii_exec(name);
        let ids = self.object_ids();
        let ghost iv = ids@.map_values(|id: ObjectId| id@);
        let mut found: Option<ObjectId> = None;
        let mut i: usize = 0;
        while i < ids.len()
            invariant
                l == self@,
                self.wf(),
                iv == ids@.map_values(|id: ObjectId| id@),
                iv == ids_spec(l),
                p@ == lower_ascii(name@),
                name@ != "HEAD"@,
                ref_id(l, name@) is None,
                hex_name(name@),
                i <= ids@.len(),
                match found {
                    None => forall|j: int| 0 <= j < i ==> !prefix_hit(l, p@, #[trigger] iv[j]),
                    Some(f) => prefix_hit(l, p@, f@) && forall|j: int|
                        0 <= j < i && #[trigger] prefix_hit(l, p@, iv[j]) ==> iv[j] == f@,
                },
            decreases ids@.len() - i,
        {
            let id = ids[i];
            assert(iv[i as int] == id@);
            assert(iv.contains(id@));
            let hit = hex_prefix(&p, &id) && match self.get(&id) {
                Ok(Some(Object::Commit(_))) => true,
                _ => false,
            };
            proof {
                if commit_at(l, id@) is Some {
                    assert(crate::repo::stored(l, id@, ObjectView::Commit(commit_at(l, id@)->Some_0)));
                }
            }
            assert(hit == prefix_hit(l, p@, id@));
            if hit {
                match found {
                    None => {
                        found = Some(id);
                    },
                    Some(f) => {
                        if !f.same(&id) {
                            proof {
                                assert forall|x: Seq<u8>| !names(l, name@, x) by {
                                    if names(l, name@, x) {
                                        assert(prefix_hit(l, lower_ascii(name@), f@));
                                        assert(prefix_hit(l, lower_ascii(name@), id@));
                                    }
                                }
                            }
                            return Err(RevError::Ambiguous);
                        }
                    },
                }
            }
            i = i + 1;
        }
        match found {
            Some(f) => {
                proof {
                    assert forall|y: Seq<u8>| #[trigger] prefix_hit(l, p@, y) implies y == f@ by {
                        let j = choose|j: int| 0 <= j < iv.len() && iv[j] == y;
                    }
                }
                Ok(f)
            },
            None => {
                proof {
                    assert forall|y: Seq<u8>| !#[trigger] prefix_hit(l, p@, y) by {
                        if prefix_hit(l, p@, y) {
                            let j = choose|j: int| 0 <= j < iv.len() && iv[j] == y;
                        }
                    }
                }
                Err(RevError::Unknown)
            },
        }
    }

    /// Goes `steps` first-parent steps back from `id`.
    pub fn steps_back(&self, id: ObjectId, steps: usize) -> (r: Result<ObjectId, RevError>)
        requires
            self.wf(),
        ensures
            match steps_back(self@, id@, steps as nat) {
                Some(y) => r matches Ok(x) && x@ == y,
                None => if ends_early(self@, id@, steps as nat) {
                    r matches Err(RevError::TooShort)
                } else {
                    r matches Err(RevError::Repo(_))
                },
            },
    {
        let ghost l = self@;
        let mut cur = id;
        let mut k: usize = 0;
        while k < steps
            invariant
                l == self@,
                self.wf(),
                k <= steps,
                steps_back(l, id@, steps as nat) == steps_back(l, cur@, (steps - k) as nat),
                ends_early(l, id@, steps as nat) == ends_early(l, cur@, (steps - k) as nat),
            decreases steps - k,
        {
            proof {
                if commit_at(l, cur@) is Some {
                    assert(crate::repo::stored(l, cur@, ObjectView::Commit(commit_at(l, cur@)->Some_0)));
                }
            }
            let c = match self.commit_of(&cur) {
                Ok(c) => c,
                Err(e) => return Err(RevError::Repo(e)),
            };
            assert(commit_at(l, cur@) == Some(c@));
            if c.parents.len() == 0 {
                return Err(RevError::TooShort);
            }
            assert(c@.parents[0] == c.parents@[0]@);
            cur = c.parents[0];
            k = k + 1;
        }
        Ok(cur)
    }

    /// Resolves a revision: a name (see `resolve_name`), optionally
    /// followed by `~N` for `N` first-parent steps back.
    pub fn resolve(&self, spec: &str) -> (r: Result<ObjectId, RevError>)
        requires
            self.wf(),
        ensures
            rev_parts(spec@) is None ==> r matches Err(RevError::BadCount),
            r matches Ok(id) ==> resolves_to(self@, spec@, id@),
            (exists|x: Seq<u8>| resolves_to(self@, spec@, x)) ==> r is Ok,
            rev_parts(spec@) matches Some((name, n)) ==> forall|base: Seq<u8>| #[trigger]
                names(self@, name, base) ==> match steps_back(self@, base, n as nat) {
                    Some(y) => r matches Ok(x) && x@ == y,
                    None => if ends_early(self@, base, n as nat) {
                        r matches Err(RevError::TooShort)
                    } else {
                        r matches Err(RevError::Repo(_))
                    },
                },
    {
        let (name, steps) = match split_rev(spec) {
            Some(parts) => parts,
            None => return Err(RevError::BadCount),
        };
        let base = match self.resolve_name(name) {
            Ok(id) => id,
            Err(e) => {
                proof {
                    lemma_names_unique(self@, name@);
                }
                return Err(e);
            },
        };
        proof {
            lemma_names_unique(self@, name@);
        }
        let r = self.steps_back(base, steps);
        proof {
            if exists|x: Seq<u8>| resolves_to(self@, spec@, x) {
                let x = choose|x: Seq<u8>| resolves_to(self@, spec@, x);
                let b2 = choose|b2: Seq<u8>| #[trigger] names(self@, name@, b2) && steps_back(self@, b2, steps as nat) == Some(x);
                assert(names(self@, name@, base@));
            }
        }
        r
    }
}

/// A name stands for at most one commit.
proof fn lemma_names_unique(l: Listing, name: Seq<char>)
    ensures
        forall|x: Seq<u8>, y: Seq<u8>| #[trigger] names(l, name, x) && #[trigger] names(l, name, y) ==> x == y,
{
}

// ---- which files a command touches ----

proof fn lemma_has_path_take(l: Listing, i: int)
    requires
        0 <= i < l.len(),
    ensures
        forall|q: Seq<u8>| #[trigger] has_path(l.take(i + 1), q) <==> (has_path(l.take(i), q) || q == l[i].0),
        forall|q: Seq<u8>| has_path(l.take(0), q) == false,
{
    assert forall|q: Seq<u8>| #[trigger] has_path(l.take(i + 1), q) <==> (has_path(l.take(i), q) || q == l[i].0) by {
        if has_path(l.take(i + 1), q) {
            let j = choose|j: int| 0 <= j < i + 1 && (#[trigger] l.take(i + 1)[j]).0 == q;
            if j < i {
                assert(l.take(i)[j].0 == q);
            }
        }
        if has_path(l.take(i), q) {
            let j = choose|j: int| 0 <= j < i && (#[trigger] l.take(i)[j]).0 == q;
            assert(l.take(i + 1)[j].0 == q);
        }
        if q == l[i].0 {
            assert(l.take(i + 1)[i].0 == q);
        }
    }
}

proof fn lemma_has_path_all(l: Listing)
    ensures
        forall|q: Seq<u8>| #[trigger] has_path(l.take(l.len() as int), q) == has_path(l, q),
{
    assert(l.take(l.len() as int) =~= l);
}

/// The status letter of a path: `A` added, `D` deleted, `M` modified, none
/// if unchanged.
pub open spec fn status_tag(old: Option<Seq<u8>>, new: Option<Seq<u8>>) -> Option<Seq<u8>> {
    match (old, new) {
        (None, Some(_)) => Some(seq![65u8]),
        (Some(_), None) => Some(seq![68u8]),
        (Some(a), Some(b)) => if a != b {
            Some(seq![77u8])
        } else {
            None
        },
        (None, None) => None,
    }
}

/// The bytes of file contents that may be absent.
pub open spec fn content_view(o: Option<&Vec<u8>>) -> Option<Seq<u8>> {
    match o {
        Some(v) => Some(v@),
        None => None,
    }
}

fn tag_of(old: Option<&Vec<u8>>, new: Option<&Vec<u8>>) -> (r: Option<Vec<u8>>)
    ensures
        match r {
            Some(t) => status_tag(content_view(old), content_view(new)) == Some(t@),
            None => status_tag(content_view(old), content_view(new)) is None,
        },
{
    let letter: u8 = match (old, new) {
        (None, Some(_)) => 65,
        (Some(_), None) => 68,
        (Some(a), Some(b)) => {
            if bytes_eq(a.as_slice(), b.as_slice()) {
                return None;
            }
            77
        },
        (None, None) => return None,
    };
    let mut t: Vec<u8> = Vec::new();
    t.push(letter);
    proof {
        assert(t@ =~= seq![letter]);
    }
    Some(t)
}

/// The uncommitted changes from `old` to `new`, by path: each changed path
/// maps to its status letter (`A`, `D` or `M`).
pub fn status_of(old: &Files, new: &Files) -> (r: Files)
    ensures
        r.wf(),
        forall|p: Seq<u8>| #[trigger] lookup(r@, p) == status_tag(lookup(old@, p), lookup(new@, p)),
{
    old.check_sorted();
    new.check_sorted();
    let mut marks = Files::new();
    let es = old.entries();
    let mut i: usize = 0;
    while i < es.len()
        invariant
            old.wf(),
            new.wf(),
            marks.wf(),
            crate::snapshot::entry_views(es@) == old@,
            i <= es@.len(),
            forall|q: Seq<u8>| #[trigger] lookup(marks@, q) == if has_path(old@.take(i as int), q) {
                status_tag(lookup(old@, q), lookup(new@, q))
            } else {
                None
            },
        decreases es@.len() - i,
    {
        let path = &es[i].0;
        assert(path@ == old@[i as int].0);
        proof {
            lemma_has_path_take(old@, i as int);
        }
        match tag_of(old.get(path.as_slice()), new.get(path.as_slice())) {
            Some(t) => {
                marks.insert(copy_range(path.as_slice(), 0, path.len()), t);
            },
            None => {},
        }
        proof {
            assert(path@.subrange(0, path@.len() as int) =~= path@);
        }
        i = i + 1;
    }
    proof {
        lemma_has_path_all(old@);
    }
    let es = new.entries();
    let mut j: usize = 0;
    while j < es.len()
        invariant
            old.wf(),
            new.wf(),
            marks.wf(),
            crate::snapshot::entry_views(es@) == new@,
            j <= es@.len(),
            forall|q: Seq<u8>| #[trigger] lookup(marks@, q) == if has_path(old@, q) || has_path(
                new@.take(j as int),
                q,
            ) {
                status_tag(lookup(old@, q), lookup(new@, q))
            } else {
                None
            },
        decreases es@.len() - j,
    {
        let path = &es[j].0;
        assert(path@ == new@[j as int].0);
        proof {
            lemma_has_path_take(new@, j as int);
        }
        match tag_of(old.get(path.as_slice()), new.get(path.as_slice())) {
            Some(t) => {
                marks.insert(copy_range(path.as_slice(), 0, path.len()), t);
            },
            None => {},
        }
        proof {
            assert(path@.subrange(0, path@.len() as int) =~= path@);
        }
        j = j + 1;
    }
    proof {
        lemma_has_path_all(new@);
        assert forall|p: Seq<u8>| #[trigger] lookup(marks@, p) == status_tag(lookup(old@, p), lookup(new@, p)) by {
            if !has_path(old@, p) && !has_path(new@, p) {
                assert(lookup(old@, p) is None && lookup(new@, p) is None);
            }
        }
    }
    marks
}

fn same_content(a: Option<&Vec<u8>>, b: Option<&Vec<u8>>) -> (r: bool)
    ensures
        r == (content_view(a) == content_view(b)),
{
    match (a, b) {
        (Some(x), Some(y)) => bytes_eq(x.as_slice(), y.as_slice()),
        (None, None) => true,
        _ => false,
    }
}

/// A path that moving from `from` to `to` would overwrite while it holds
/// local changes: the two differ there, and the working files `now` differ
/// from `from`.
pub open spec fn clobbered_at(from: Listing, to: Listing, now: Listing, p: Seq<u8>) -> bool {
    lookup(from, p) != lookup(to, p) && lookup(now, p) != lookup(from, p)
}

/// The paths with local changes that moving from `from` to `to` would
/// overwrite, in path order (as the keys of the result; values are empty).
pub fn clobbered(from: &Files, to: &Files, now: &Files) -> (r: Files)
    ensures
        r.wf(),
        forall|p: Seq<u8>| #[trigger] lookup(r@, p) == if clobbered_at(from@, to@, now@, p) {
            Some(Seq::<u8>::empty())
        } else {
            None
        },
{
    from.check_sorted();
    to.check_sorted();
    now.check_sorted();
    let mut marks = Files::new();
    let mut pass: usize = 0;
    while pass < 2
        invariant
            from.wf(),
            to.wf(),
            now.wf(),
            marks.wf(),
            pass <= 2,
            forall|q: Seq<u8>| #[trigger] lookup(marks@, q) == if ((pass >= 1 && has_path(from@, q)) || (pass >= 2
                && has_path(to@, q))) && clobbered_at(from@, to@, now@, q) {
                Some(Seq::<u8>::empty())
            } else {
                None
            },
        decreases 2 - pass,
    {
        let side = if pass == 0 {
            from
        } else {
            to
        };
        let es = side.entries();
        let mut i: usize = 0;
        while i < es.len()
            invariant
                from.wf(),
                to.wf(),
                now.wf(),
                marks.wf(),
                pass < 2,
                side@ == if pass == 0 {
                    from@
                } else {
                    to@
                },
                crate::snapshot::entry_views(es@) == side@,
                i <= es@.len(),
                forall|q: Seq<u8>| #[trigger] lookup(marks@, q) == if ((pass >= 1 && has_path(from@, q)) || has_path(
                    side@.take(i as int),
                    q,
                )) && clobbered_at(from@, to@, now@, q) {
                    Some(Seq::<u8>::empty())
                } else {
                    None
                },
            decreases es@.len() - i,
        {
            let path = &es[i].0;
            assert(path@ == side@[i as int].0);
            proof {
                lemma_has_path_take(side@, i as int);
            }
            let f = from.get(path.as_slice());
            let hit = !same_content(f, to.get(path.as_slice())) && !same_content(now.get(path.as_slice()), f);
            if hit {
                let key = copy_range(path.as_slice(), 0, path.len());
                assert(key@ =~= path@);
                marks.insert(key, Vec::new());
            }
            i = i + 1;
        }
        proof {
            lemma_has_path_all(side@);
        }
        pass = pass + 1;
    }
    proof {
        assert forall|p: Seq<u8>| clobbered_at(from@, to@, now@, p) implies has_path(from@, p) || has_path(to@, p) by {
            if !has_path(from@, p) && !has_path(to@, p) {
                assert(lookup(from@, p) is None && lookup(to@, p) is None);
            }
        }
    }
    marks
}

/// Files of `head` whose working copy in `now` differs or is gone: local
/// changes that would stop a merge or a pull. In path order, as the keys of
/// the result (values are empty).
pub fn dirty(head: &Files, now: &Files) -> (r: Files)
    ensures
        r.wf(),
        forall|p: Seq<u8>| #[trigger] lookup(r@, p) == if has_path(head@, p) && lookup(now@, p) != lookup(head@, p) {
            Some(Seq::<u8>::empty())
        } else {
            None
        },
{
    head.check_sorted();
    now.check_sorted();
    let mut marks = Files::new();
    let es = head.entries();
    let mut i: usize = 0;
    while i < es.len()
        invariant
            head.wf(),
            now.wf(),
            marks.wf(),
            crate::snapshot::entry_views(es@) == head@,
            i <= es@.len(),
            forall|q: Seq<u8>| #[trigger] lookup(marks@, q) == if has_path(head@.take(i as int), q) && lookup(now@, q)
                != lookup(head@, q) {
                Some(Seq::<u8>::empty())
            } else {
                None
            },
        decreases es@.len() - i,
    {
        let path = &es[i].0;
        assert(path@ == head@[i as int].0);
        proof {
            lemma_has_path_take(head@, i as int);
        }
        if !same_content(now.get(path.as_slice()), head.get(path.as_slice())) {
            let key = copy_range(path.as_slice(), 0, path.len());
            assert(key@ =~= path@);
            marks.insert(key, Vec::new());
        }
        i = i + 1;
    }
    proof {
        lemma_has_path_all(head@);
    }
    marks
}

/// The working files that `from` or `to` track: what a checkout or an abort
/// may replace. Untracked files are left out, so they survive.
pub fn tracked_part(now: &Files, from: &Files, to: &Files) -> (r: Files)
    ensures
        r.wf(),
        forall|p: Seq<u8>| #[trigger] lookup(r@, p) == if has_path(from@, p) || has_path(to@, p) {
            lookup(now@, p)
        } else {
            None
        },
{
    from.check_sorted();
    to.check_sorted();
    now.check_sorted();
    let mut kept = Files::new();
    let es = now.entries();
    let mut i: usize = 0;
    while i < es.len()
        invariant
            from.wf(),
            to.wf(),
            now.wf(),
            kept.wf(),
            crate::snapshot::entry_views(es@) == now@,
            i <= es@.len(),
            forall|q: Seq<u8>| #[trigger] lookup(kept@, q) == if has_path(now@.take(i as int), q) && (has_path(
                from@,
                q,
            ) || has_path(to@, q)) {
                lookup(now@, q)
            } else {
                None
            },
        decreases es@.len() - i,
    {
        let path = &es[i].0;
        let content = &es[i].1;
        assert(path@ == now@[i as int].0 && content@ == now@[i as int].1);
        proof {
            lemma_has_path_take(now@, i as int);
            crate::snapshot::lemma_lookup_at(now@, i as int);
        }
        if from.get(path.as_slice()).is_some() || to.get(path.as_slice()).is_some() {
            let key = copy_range(path.as_slice(), 0, path.len());
            let value = copy_range(content.as_slice(), 0, content.len());
            assert(key@ =~= path@);
            assert(value@ =~= content@);
            kept.insert(key, value);
        }
        i = i + 1;
    }
    proof {
        lemma_has_path_all(now@);
        assert forall|p: Seq<u8>| #[trigger] lookup(kept@, p) == if has_path(from@, p) || has_path(to@, p) {
            lookup(now@, p)
        } else {
            None
        } by {
            if !has_path(now@, p) {
                assert(lookup(now@, p) is None);
            }
        }
    }
    kept
}

// ---- moving HEAD and committing ----

/// The store after HEAD moves to `id`: the branch HEAD is on now names
/// `id`; a detached or missing HEAD is detached at `id`. `None` when HEAD
/// is malformed or names an invalid branch.
pub open spec fn moved_head(l: Listing, id: Seq<u8>) -> Option<(Seq<u8>, Seq<u8>)> {
    match lookup(l, head_key()) {
        Some(v) => if v.len() >= 1 && v[0] == 0 {
            if valid_utf8(v.drop_first()) && valid_ref_name_spec(v.drop_first()) {
                Some((ref_key(v.drop_first()), id))
            } else {
                None
            }
        } else if v.len() == 33 && v[0] == 1 {
            Some((head_key(), seq![1u8] + id))
        } else {
            None
        },
        None => Some((head_key(), seq![1u8] + id)),
    }
}

/// The merge head recorded in a store, if it holds an id.
pub open spec fn merge_id(l: Listing) -> Option<Seq<u8>> {
    match lookup(l, merge_head_key()) {
        Some(v) => if v.len() == 32 {
            Some(v)
        } else {
            None
        },
        None => None,
    }
}

/// The ids in an optional id, as a sequence.
pub open spec fn opt_ids(o: Option<Seq<u8>>) -> Seq<Seq<u8>> {
    match o {
        Some(x) => seq![x],
        None => seq![],
    }
}

/// No merge is in progress and the head commit already has this tree.
pub open spec fn nothing_to_commit(l: Listing, tree: Seq<u8>) -> bool {
    &&& merge_id(l) is None
    &&& match head_commit_of(l) {
        Some(Some(h)) => match commit_at(l, h) {
            Some(c) => c.tree == tree,
            None => false,
        },
        _ => false,
    }
}

/// `new` holds the commit `id` of `tree` on top of HEAD (and the merge
/// head, if any) of `old`, HEAD has moved to it, and no merge is recorded.
pub open spec fn commit_made(
    old: Listing,
    new: Listing,
    tree: Seq<u8>,
    message: Seq<char>,
    author: Seq<char>,
    timestamp: u64,
    id: Seq<u8>,
) -> bool {
    match head_commit_of(old) {
        Some(h) => match encode_view(
            ObjectView::Commit(
                CommitView { tree, parents: opt_ids(h) + opt_ids(merge_id(old)), timestamp, author, message },
            ),
        ) {
            Ok(b) => {
                &&& id == sha256(b)
                &&& lookup(new, obj_key_spec(id)) is Some
                &&& match moved_head(old, id) {
                    Some((key, value)) => lookup(new, key) == Some(value),
                    None => false,
                }
                &&& merge_id(new) is None
            },
            Err(_) => false,
        },
        None => false,
    }
}

/// HEAD can be moved to a new commit: it names a valid branch, holds a
/// commit id, or is not set.
pub open spec fn head_movable(l: Listing) -> bool {
    match lookup(l, head_key()) {
        Some(v) => (v.len() >= 1 && v[0] == 0 && valid_utf8(v.drop_first()) && valid_ref_name_spec(v.drop_first())) || (v.len()
            == 33 && v[0] == 1),
        None => true,
    }
}

/// A commit of `tree` can be made: HEAD can be read and moved, the head
/// commit can be read when it decides whether anything changed, something
/// changed (or a merge is being concluded), and the commit can be encoded.
pub open spec fn commit_possible(l: Listing, tree: Seq<u8>, message: Seq<char>, author: Seq<char>, timestamp: u64) -> bool {
    match head_commit_of(l) {
        Some(h) => {
            &&& !nothing_to_commit(l, tree)
            &&& (merge_id(l) is None && h is Some ==> commit_at(l, h->Some_0) is Some)
            &&& encode_view(
                ObjectView::Commit(CommitView { tree, parents: opt_ids(h) + opt_ids(merge_id(l)), timestamp, author, message }),
            ) is Ok
            &&& head_movable(l)
        },
        None => false,
    }
}

/// Why a commit was not made.
#[derive(Debug)]
pub enum CommitError {
    /// The snapshot is the head commit's tree and no merge is in progress.
    NothingToCommit,
    Repo(RepoError),
}

impl Repo {
    /// Moves HEAD to `id`: the branch it is on is set to `id`; otherwise
    /// HEAD is detached at `id`.
    pub fn move_head_to(&mut self, id: ObjectId) -> (r: Result<(), RepoError>)
        requires
            old(self).wf(),
        ensures
            final(self).wf(),
            match moved_head(old(self)@, id@) {
                Some((key, value)) => r is Ok && forall|k: Seq<u8>| #[trigger] lookup(final(self)@, k) == if k == key {
                    Some(value)
                } else {
                    lookup(old(self)@, k)
                },
                None => r is Err && final(self)@ == old(self)@,
            },
    {
        let ghost l = self@;
        match self.head() {
            Ok(Some(Head::Branch(b))) => {
                proof {
                    let v = lookup(l, head_key())->Some_0;
                    decode_utf8_encode_utf8(v.drop_first());
                }
                let name = b.as_str();
                assert(name.spec_bytes() == encode_utf8(b@));
                self.set_ref(name, id)
            },
            Ok(_) => self.set_head(&Head::Detached(id)),
            Err(e) => Err(e),
        }
    }

    /// Commits the snapshot whose root tree is `tree`: its parents are the
    /// HEAD commit and, while a conflicted merge is being resolved, the
    /// commit merged in. HEAD moves to the new commit and the merge record
    /// is cleared. Refused when nothing changed and no merge is in progress.
    pub fn commit_tree(&mut self, tree: ObjectId, message: &str, author: &str, timestamp: u64) -> (r: Result<
        ObjectId,
        CommitError,
    >)
        requires
            old(self).wf(),
        ensures
            final(self).wf(),
            r matches Err(CommitError::NothingToCommit) <==> nothing_to_commit(old(self)@, tree@),
            r matches Err(CommitError::NothingToCommit) ==> final(self)@ == old(self)@,
            r matches Ok(id) ==> commit_made(old(self)@, final(self)@, tree@, message@, author@, timestamp, id@),
            head_commit_of(old(self)@) is None ==> r matches Err(CommitError::Repo(RepoError::BadHead)),
            r is Ok <==> commit_possible(old(self)@, tree@, message@, author@, timestamp),
    {
        let ghost l = self@;
        let head = match self.head_commit() {
            Ok(h) => h,
            Err(e) => return Err(CommitError::Repo(e)),
        };
        let merge = self.merge_head();
        if merge.is_none() {
            if let Some(h) = head {
                proof {
                    if commit_at(l, h@) is Some {
                        assert(crate::repo::stored(l, h@, ObjectView::Commit(commit_at(l, h@)->Some_0)));
                    }
                }
                let c = match self.commit_of(&h) {
                    Ok(c) => c,
                    Err(e) => return Err(CommitError::Repo(e)),
                };
                assert(commit_at(l, h@) == Some(c@));
                if c.tree.same(&tree) {
                    return Err(CommitError::NothingToCommit);
                }
            }
        }
        let mut parents: Vec<ObjectId> = Vec::new();
        if let Some(h) = head {
            parents.push(h);
        }
        if let Some(m) = merge {
            parents.push(m);
        }
        assert(id_views(parents@) =~= opt_ids(head_commit_of(l)->Some_0) + opt_ids(merge_id(l)));
        let id = match self.write_commit(tree, parents, author, message, timestamp) {
            Ok(id) => id,
            Err(e) => return Err(CommitError::Repo(e)),
        };
        let ghost l1 = self@;
        proof {
            lemma_key_prefixes(id@);
            assert(lookup(l1, head_key()) == lookup(l, head_key()));
            assert(moved_head(l1, id@) is Some <==> head_movable(l));
        }
        match self.move_head_to(id) {
            Ok(()) => {},
            Err(e) => return Err(CommitError::Repo(e)),
        }
        match self.clear_merge_head() {
            Ok(()) => {},
            Err(e) => return Err(CommitError::Repo(e)),
        }
        Ok(id)
    }
}

/// Objects, HEAD, refs and the merge record live under distinct keys.
proof fn lemma_key_prefixes(id: Seq<u8>)
    ensures
        forall|n: Seq<u8>| obj_key_spec(id) != #[trigger] ref_key(n),
        obj_key_spec(id) != head_key(),
        obj_key_spec(id) != merge_head_key(),
        head_key() != merge_head_key(),
        forall|n: Seq<u8>| #[trigger] ref_key(n) != merge_head_key(),
        forall|n: Seq<u8>| #[trigger] ref_key(n) != head_key(),
{
    assert forall|n: Seq<u8>| obj_key_spec(id) != #[trigger] ref_key(n) by {
        assert(obj_key_spec(id)[0] != ref_key(n)[0]);
    }
    assert(obj_key_spec(id)[0] != head_key()[0]);
    assert(obj_key_spec(id)[0] != merge_head_key()[0]);
    assert(head_key()[0] != merge_head_key()[0]);
    assert forall|n: Seq<u8>| #[trigger] ref_key(n) != merge_head_key() by {
        assert(ref_key(n)[0] != merge_head_key()[0]);
    }
    assert forall|n: Seq<u8>| #[trigger] ref_key(n) != head_key() by {
        assert(ref_key(n)[0] != head_key()[0]);
    }
}

/// Why a branch was not created.
#[derive(Debug)]
pub enum BranchError {
    /// A branch of that name exists.
    Exists,
    /// There is no commit yet to put it on.
    NoCommits,
    Repo(RepoError),
}

impl Repo {
    /// Creates the branch `name` at the HEAD commit.
    pub fn create_branch(&mut self, name: &str) -> (r: Result<ObjectId, BranchError>)
        requires
            old(self).wf(),
        ensures
            final(self).wf(),
            ref_id(old(self)@, name@) is Some ==> (r matches Err(BranchError::Exists) && final(self)@ == old(self)@),
            ref_id(old(self)@, name@) is None ==> match head_commit_of(old(self)@) {
                None => r matches Err(BranchError::Repo(RepoError::BadHead)) && final(self)@ == old(self)@,
                Some(None) => r matches Err(BranchError::NoCommits) && final(self)@ == old(self)@,
                Some(Some(h)) => if valid_ref_name_spec(encode_utf8(name@)) {
                    r matches Ok(id) && id@ == h && forall|k: Seq<u8>| #[trigger] lookup(final(self)@, k) == if k
                        == ref_key(encode_utf8(name@)) {
                        Some(h)
                    } else {
                        lookup(old(self)@, k)
                    }
                } else {
                    r matches Err(BranchError::Repo(RepoError::InvalidRefName(_))) && final(self)@ == old(self)@
                },
            },
    {
        if self.get_ref(name).is_some() {
            return Err(BranchError::Exists);
        }
        let head = match self.head_commit() {
            Ok(Some(h)) => h,
            Ok(None) => return Err(BranchError::NoCommits),
            Err(e) => return Err(BranchError::Repo(e)),
        };
        match self.set_ref(name, head) {
            Ok(()) => Ok(head),
            Err(e) => Err(BranchError::Repo(e)),
        }
    }

    /// What a checkout of `target` switches to: the branch of that name, or
    /// else the commit the revision names, detached.
    pub fn checkout_target(&self, target: &str) -> (r: Result<(Head, ObjectId), RevError>)
        requires
            self.wf(),
        ensures
            match ref_id(self@, target@) {
                Some(v) => r matches Ok((Head::Branch(b), id)) && b@ == target@ && id@ == v,
                None => (r matches Ok((h, id)) ==> (h == Head::Detached(id) && resolves_to(self@, target@, id@))) && ((
                exists|x: Seq<u8>| resolves_to(self@, target@, x)) ==> r is Ok),
            },
    {
        match self.get_ref(target) {
            Some(id) => Ok((Head::Branch(target.to_string()), id)),
            None => match self.resolve(target) {
                Ok(id) => Ok((Head::Detached(id), id)),
                Err(e) => Err(e),
            },
        }
    }
}


/// `NAME~N` goes back by first parents: `n + 1` steps back is the first
/// parent of the commit `n` steps back (none if that commit has no parent
/// or is not a readable commit), and `0` steps back is the commit itself.
/// The walk ends early exactly when it reaches a readable commit with no
/// parent before its last step.
pub proof fn law_steps_back_takes_first_parents(l: Listing, x: Seq<u8>, n: nat)
    ensures
        steps_back(l, x, 0) == Some(x),
        steps_back(l, x, n + 1) == match steps_back(l, x, n) {
            Some(y) => match commit_at(l, y) {
                Some(c) => if c.parents.len() > 0 {
                    Some(c.parents[0])
                } else {
                    None::<Seq<u8>>
                },
                None => None::<Seq<u8>>,
            },
            None => None::<Seq<u8>>,
        },
        !ends_early(l, x, 0),
        ends_early(l, x, n + 1) == (ends_early(l, x, n) || (steps_back(l, x, n) matches Some(y) && commit_at(l, y) matches Some(c)
            && c.parents.len() == 0)),
    decreases n,
{
    reveal_with_fuel(steps_back, 2);
    reveal_with_fuel(ends_early, 2);
    if n > 0 {
        match commit_at(l, x) {
            Some(c) => if c.parents.len() > 0 {
                law_steps_back_takes_first_parents(l, c.parents[0], (n - 1) as nat);
            },
            None => {},
        }
    }
}

/// A move from `from` to `to` reports exactly the paths it would change
/// (the two snapshots differ there) that also hold a local edit (the
/// working directory differs from `from` there), whether the move would
/// write the path or delete it.
pub proof fn law_clobbered_is_every_local_edit_the_move_touches(from: Listing, to: Listing, now: Listing, r: Listing, p: Seq<u8>)
    requires
        forall|q: Seq<u8>| #[trigger] lookup(r, q) == if clobbered_at(from, to, now, q) {
            Some(Seq::<u8>::empty())
        } else {
            None
        },
    ensures
        lookup(r, p) is Some <==> (lookup(from, p) != lookup(to, p) && lookup(now, p) != lookup(from, p)),
{
    assert(lookup(r, p) == if clobbered_at(from, to, now, p) { Some(Seq::<u8>::empty()) } else { None });
}

} // verus!
