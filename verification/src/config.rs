//! The merged three-level command namespace: domain, category, command
//! name, each mapping to an opaque shell command string.
//!
//! A tree is represented as a flat sequence of entries, each carrying its
//! full (domain, category, name) address.  The identity of a command for
//! duplicate detection is its (domain, name) pair — the category is
//! deliberately not part of it, in lockstep with the bare-name ambiguity
//! rule — so two categories of one domain can never hold the same name
//! once everything has passed through [`Config::merge_entries`].

use vstd::prelude::*;

use crate::error::{ErrorView, HumorError};

verus! {

/// One command of the tree: the shell string `command`, addressed by
/// (`domain`, `category`, `name`).
#[derive(Debug)]
pub struct CommandEntry {
    pub domain: String,
    pub category: String,
    pub name: String,
    pub command: String,
}

/// Ghost mirror of [`CommandEntry`].
#[verifier::ext_equal]
pub ghost struct EntryView {
    pub domain: Seq<char>,
    pub category: Seq<char>,
    pub name: Seq<char>,
    pub command: Seq<char>,
}

impl View for CommandEntry {
    type V = EntryView;

    open spec fn view(&self) -> EntryView {
        EntryView {
            domain: self.domain@,
            category: self.category@,
            name: self.name@,
            command: self.command@,
        }
    }
}

/// The ghost value of a sequence of entries.
pub open spec fn entries_view(s: Seq<CommandEntry>) -> Seq<EntryView> {
    s.map_values(|e: CommandEntry| e@)
}

/// The merged command tree.  Its ghost value is the sequence of entries
/// it holds, in insertion order.
#[derive(Debug)]
pub struct Config {
    pub(crate) entries: Vec<CommandEntry>,
}

impl View for Config {
    type V = Seq<EntryView>;

    closed spec fn view(&self) -> Seq<EntryView> {
        entries_view(self.entries@)
    }
}

/// Whether the tree holds some entry addressed by (`domain`, `name`),
/// under any category: the key identity used for duplicate detection.
pub open spec fn has_key(s: Seq<EntryView>, domain: Seq<char>, name: Seq<char>) -> bool {
    exists|i: int| 0 <= i < s.len() && s[i].domain == domain && s[i].name == name
}

/// The tree invariant: no two entries share a (domain, name) pair.  Every
/// tree built by merging alone satisfies it, because a merge rejects such
/// a pair as a duplicate.
pub open spec fn tree_wf(s: Seq<EntryView>) -> bool {
    forall|i: int, j: int|
        0 <= i < j < s.len() ==> !(s[i].domain == s[j].domain && s[i].name == s[j].name)
}

/// The two results of merging a source into a target: the target as it
/// stands afterwards (entries merged before a duplicate remain applied —
/// there is no rollback), and the first source entry found to be a
/// duplicate, if any.
#[verifier::ext_equal]
pub ghost struct MergeOutcome {
    pub tree: Seq<EntryView>,
    pub dup: Option<EntryView>,
}

/// Merging, entry by entry in source order: an entry whose (domain, name)
/// pair already stands in the evolving target — whatever its category —
/// is a duplicate and stops the merge; otherwise it is appended.
pub open spec fn merge_seq(target: Seq<EntryView>, source: Seq<EntryView>) -> MergeOutcome
    decreases source.len(),
{
    if source.len() == 0 {
        MergeOutcome { tree: target, dup: None }
    } else if has_key(target, source[0].domain, source[0].name) {
        MergeOutcome { tree: target, dup: Some(source[0]) }
    } else {
        merge_seq(target.push(source[0]), source.drop_first())
    }
}

/// The first entry of `s` satisfying `p`, if any.
pub open spec fn first_match(s: Seq<EntryView>, p: spec_fn(EntryView) -> bool) -> Option<
    EntryView,
>
    decreases s.len(),
{
    if s.len() == 0 {
        None
    } else if p(s[0]) {
        Some(s[0])
    } else {
        first_match(s.drop_first(), p)
    }
}

/// How many entries of `s` satisfy `p`.
pub open spec fn count_match(s: Seq<EntryView>, p: spec_fn(EntryView) -> bool) -> nat
    decreases s.len(),
{
    if s.len() == 0 {
        0
    } else {
        (if p(s[0]) {
            1nat
        } else {
            0nat
        }) + count_match(s.drop_first(), p)
    }
}

/// Matching a bare command name.
pub open spec fn by_name(name: Seq<char>) -> spec_fn(EntryView) -> bool {
    |e: EntryView| e.name == name
}

/// Matching a command name within a domain, whatever the category.
pub open spec fn by_domain_name(domain: Seq<char>, name: Seq<char>) -> spec_fn(EntryView) -> bool {
    |e: EntryView| e.domain == domain && e.name == name
}

/// Matching a full (domain, category, name) address.
pub open spec fn by_triple(domain: Seq<char>, category: Seq<char>, name: Seq<char>) -> spec_fn(
    EntryView,
) -> bool {
    |e: EntryView| e.domain == domain && e.category == category && e.name == name
}

/// The "domain.name" label of a two-token lookup failure.
pub open spec fn dotted2(a: Seq<char>, b: Seq<char>) -> Seq<char> {
    a + "."@ + b
}

/// The "domain.category.name" label of a three-token lookup failure.
pub open spec fn dotted3(a: Seq<char>, b: Seq<char>, c: Seq<char>) -> Seq<char> {
    a + "."@ + b + "."@ + c
}

/// Bare-name lookup: the one command of that name, if the name is defined
/// exactly once in the whole tree; ambiguity (two or more definitions
/// anywhere) fails exactly like absence, with `CommandNotFound`.
pub open spec fn spec_find_unique(s: Seq<EntryView>, name: Seq<char>) -> Result<
    Seq<char>,
    ErrorView,
> {
    if count_match(s, by_name(name)) == 1 && first_match(s, by_name(name)) is Some {
        Ok(first_match(s, by_name(name))->Some_0.command)
    } else {
        Err(ErrorView::CommandNotFound(name))
    }
}

/// Domain lookup: the first command of that name under the domain,
/// whatever its category.
pub open spec fn spec_find_domain(s: Seq<EntryView>, domain: Seq<char>, name: Seq<char>) -> Result<
    Seq<char>,
    ErrorView,
> {
    match first_match(s, by_domain_name(domain, name)) {
        Some(e) => Ok(e.command),
        None => Err(ErrorView::CommandNotFound(dotted2(domain, name))),
    }
}

/// Full lookup by the exact (domain, category, name) triple.
pub open spec fn spec_find_full(
    s: Seq<EntryView>,
    domain: Seq<char>,
    category: Seq<char>,
    name: Seq<char>,
) -> Result<Seq<char>, ErrorView> {
    match first_match(s, by_triple(domain, category, name)) {
        Some(e) => Ok(e.command),
        None => Err(ErrorView::CommandNotFound(dotted3(domain, category, name))),
    }
}

/// Dispatch purely on argument count: one token is a bare lookup, two a
/// domain lookup, three a full lookup, anything else is rejected.
pub open spec fn spec_find_command(s: Seq<EntryView>, args: Seq<Seq<char>>) -> Result<
    Seq<char>,
    ErrorView,
> {
    if args.len() == 1 {
        spec_find_unique(s, args[0])
    } else if args.len() == 2 {
        spec_find_domain(s, args[0], args[1])
    } else if args.len() == 3 {
        spec_find_full(s, args[0], args[1], args[2])
    } else {
        Err(ErrorView::InvalidCommandStructure)
    }
}

/// The ghost value of a sequence of strings.
pub open spec fn strings_view(args: Seq<String>) -> Seq<Seq<char>> {
    args.map_values(|a: String| a@)
}

/// The ghost value of a lookup result.
pub open spec fn res_view(r: Result<&str, HumorError>) -> Result<Seq<char>, ErrorView> {
    match r {
        Ok(s) => Ok(s@),
        Err(e) => Err(e@),
    }
}

proof fn lemma_count_match_push(s: Seq<EntryView>, p: spec_fn(EntryView) -> bool, e: EntryView)
    ensures
        count_match(s.push(e), p) == count_match(s, p) + (if p(e) {
            1nat
        } else {
            0nat
        }),
    decreases s.len(),
{
    if s.len() == 0 {
        assert(s.push(e)[0] == e);
        assert(s.push(e).drop_first() =~= Seq::<EntryView>::empty());
        assert(count_match(Seq::<EntryView>::empty(), p) == 0);
    } else {
        assert(s.push(e)[0] == s[0]);
        assert(s.push(e).drop_first() =~= s.drop_first().push(e));
        lemma_count_match_push(s.drop_first(), p, e);
        assert(count_match(s.push(e), p) == (if p(s[0]) {
            1nat
        } else {
            0nat
        }) + count_match(s.drop_first().push(e), p));
    }
}

proof fn lemma_first_match_push(s: Seq<EntryView>, p: spec_fn(EntryView) -> bool, e: EntryView)
    ensures
        first_match(s.push(e), p) == (if first_match(s, p) is Some {
            first_match(s, p)
        } else if p(e) {
            Some(e)
        } else {
            None::<EntryView>
        }),
    decreases s.len(),
{
    if s.len() == 0 {
        assert(s.push(e)[0] == e);
        assert(s.push(e).drop_first() =~= Seq::<EntryView>::empty());
        assert(first_match(Seq::<EntryView>::empty(), p) is None);
    } else {
        assert(s.push(e)[0] == s[0]);
        assert(s.push(e).drop_first() =~= s.drop_first().push(e));
        lemma_first_match_push(s.drop_first(), p, e);
        assert(first_match(s.push(e), p) == (if p(s[0]) {
            Some(s[0])
        } else {
            first_match(s.drop_first().push(e), p)
        }));
    }
}

proof fn lemma_count_match_take_succ(s: Seq<EntryView>, p: spec_fn(EntryView) -> bool, i: int)
    requires
        0 <= i < s.len(),
    ensures
        count_match(s.take(i + 1), p) == count_match(s.take(i), p) + (if p(s[i]) {
            1nat
        } else {
            0nat
        }),
{
    assert(s.take(i + 1) =~= s.take(i).push(s[i]));
    lemma_count_match_push(s.take(i), p, s[i]);
}

proof fn lemma_first_match_take_succ(s: Seq<EntryView>, p: spec_fn(EntryView) -> bool, i: int)
    requires
        0 <= i < s.len(),
    ensures
        first_match(s.take(i + 1), p) == (if first_match(s.take(i), p) is Some {
            first_match(s.take(i), p)
        } else if p(s[i]) {
            Some(s[i])
        } else {
            None::<EntryView>
        }),
{
    assert(s.take(i + 1) =~= s.take(i).push(s[i]));
    lemma_first_match_push(s.take(i), p, s[i]);
}

proof fn lemma_count_match_take_le(s: Seq<EntryView>, p: spec_fn(EntryView) -> bool, i: int)
    requires
        0 <= i <= s.len(),
    ensures
        count_match(s.take(i), p) <= count_match(s, p),
    decreases s.len() - i,
{
    if i == s.len() {
        assert(s.take(i) =~= s);
    } else {
        lemma_count_match_take_succ(s, p, i);
        lemma_count_match_take_le(s, p, i + 1);
    }
}

fn clone_entry(e: &CommandEntry) -> (r: CommandEntry)
    ensures
        r@ == e@,
{
    CommandEntry {
        domain: e.domain.clone(),
        category: e.category.clone(),
        name: e.name.clone(),
        command: e.command.clone(),
    }
}

impl Config {
    /// An empty tree, holding no command at all.
    pub fn new() -> (r: Config)
        ensures
            r@ == Seq::<EntryView>::empty(),
            tree_wf(r@),
    {
        let c = Config { entries: Vec::new() };
        proof {
            assert(c@ =~= Seq::<EntryView>::empty());
        }
        c
    }

    /// Whether some entry with this (domain, name) pair stands in the
    /// tree, under any category.
    fn has_entry(&self, domain: &String, name: &String) -> (r: bool)
        ensures
            r == has_key(self@, domain@, name@),
    {
        let n = self.entries.len();
        let mut i: usize = 0;
        while i < n
            invariant
                0 <= i <= n,
                n == self.entries.len(),
                forall|k: int|
                    0 <= k < i ==> !(self@[k].domain == domain@ && self@[k].name == name@),
            decreases n - i,
        {
            if self.entries[i].domain == *domain && self.entries[i].name == *name {
                assert(self@[i as int].domain == domain@ && self@[i as int].name == name@);
                return true;
            }
            i += 1;
        }
        false
    }

    /// Merge a list of entries into this tree, in list order.  An entry
    /// whose (domain, name) pair is already present — whatever the
    /// categories — is a duplicate: the merge stops there with
    /// `DuplicateCommand`, and the entries merged before it remain
    /// applied, without rollback.
    pub fn merge_entries(&mut self, source: &Vec<CommandEntry>) -> (r: Result<(), HumorError>)
        ensures
            ({
                let out = merge_seq(old(self)@, entries_view(source@));
                &&& final(self)@ == out.tree
                &&& match r {
                    Ok(()) => out.dup is None,
                    Err(e) => out.dup is Some && e@ == (ErrorView::DuplicateCommand {
                        domain: out.dup->Some_0.domain,
                        command: out.dup->Some_0.name,
                    }),
                }
            }),
    {
        let ghost src = entries_view(source@);
        let ghost orig = self@;
        proof {
            assert(src.skip(0) =~= src);
        }
        let n = source.len();
        let mut i: usize = 0;
        while i < n
            invariant
                0 <= i <= n,
                n == source.len(),
                src == entries_view(source@),
                orig == old(self)@,
                merge_seq(orig, src) == merge_seq(self@, src.skip(i as int)),
            decreases n - i,
        {
            let ghost pre = self@;
            let ghost rest = src.skip(i as int);
            proof {
                assert(rest[0] == src[i as int]);
                assert(src[i as int] == source@[i as int]@);
            }
            let e = &source[i];
            if self.has_entry(&e.domain, &e.name) {
                proof {
                    assert(merge_seq(pre, rest) == MergeOutcome {
                        tree: pre,
                        dup: Some(rest[0]),
                    });
                }
                return Err(
                    HumorError::DuplicateCommand {
                        domain: e.domain.clone(),
                        command: e.name.clone(),
                    },
                );
            }
            self.entries.push(clone_entry(e));
            proof {
                assert(self@ =~= pre.push(src[i as int]));
                assert(rest.drop_first() =~= src.skip(i as int + 1));
                assert(merge_seq(pre, rest) == merge_seq(pre.push(rest[0]), rest.drop_first()));
            }
            i += 1;
        }
        proof {
            assert(src.skip(n as int) =~= Seq::<EntryView>::empty());
        }
        Ok(())
    }

    /// Merge another tree into this one, entry by entry in its order,
    /// with the same duplicate rule and the same no-rollback behaviour as
    /// [`Config::merge_entries`].
    pub fn merge(&mut self, other: &Config) -> (r: Result<(), HumorError>)
        ensures
            ({
                let out = merge_seq(old(self)@, other@);
                &&& final(self)@ == out.tree
                &&& match r {
                    Ok(()) => out.dup is None,
                    Err(e) => out.dup is Some && e@ == (ErrorView::DuplicateCommand {
                        domain: out.dup->Some_0.domain,
                        command: out.dup->Some_0.name,
                    }),
                }
            }),
    {
        self.merge_entries(&other.entries)
    }

    /// Merge `other` onto `base` and hand the combined tree back; used to
    /// combine the default configuration with the user-specified one.  On
    /// a duplicate the partially merged tree is discarded with the error.
    pub fn merge_configs(base: Config, other: Config) -> (r: Result<Config, HumorError>)
        ensures
            ({
                let out = merge_seq(base@, other@);
                match r {
                    Ok(c) => c@ == out.tree && out.dup is None,
                    Err(e) => out.dup is Some && e@ == (ErrorView::DuplicateCommand {
                        domain: out.dup->Some_0.domain,
                        command: out.dup->Some_0.name,
                    }),
                }
            }),
    {
        let mut combined = base;
        match combined.merge(&other) {
            Ok(()) => Ok(combined),
            Err(e) => Err(e),
        }
    }

    /// Resolve an argument list against the tree, choosing the lookup
    /// strategy by arity: a bare name, a (domain, name) pair, or a full
    /// (domain, category, name) triple; any other arity is rejected with
    /// `InvalidCommandStructure`.
    pub fn find_command(&self, args: &[String]) -> (r: Result<&str, HumorError>)
        ensures
            res_view(r) == spec_find_command(self@, strings_view(args@)),
    {
        match args.len() {
            1 => self.find_unique_command(args[0].as_str()),
            2 => self.find_domain_command(args[0].as_str(), args[1].as_str()),
            3 => self.find_full_command(args[0].as_str(), args[1].as_str(), args[2].as_str()),
            _ => Err(HumorError::InvalidCommandStructure),
        }
    }

    /// Bare-name lookup over the whole tree: succeeds only if exactly one
    /// entry anywhere carries the name; zero matches and two or more
    /// matches both fail with `CommandNotFound` carrying the bare name.
    fn find_unique_command(&self, cmd: &str) -> (r: Result<&str, HumorError>)
        ensures
            res_view(r) == spec_find_unique(self@, cmd@),
    {
        let ghost p = by_name(cmd@);
        let cmd_string = cmd.to_owned();
        let n = self.entries.len();
        let mut found: Option<usize> = None;
        let mut i: usize = 0;
        while i < n
            invariant
                0 <= i <= n,
                n == self.entries.len(),
                cmd_string@ == cmd@,
                p == by_name(cmd@),
                match found {
                    None => count_match(self@.take(i as int), p) == 0 && first_match(
                        self@.take(i as int),
                        p,
                    ) is None,
                    Some(k) => k < i && self@[k as int].name == cmd@ && count_match(
                        self@.take(i as int),
                        p,
                    ) == 1 && first_match(self@.take(i as int), p) == Some(self@[k as int]),
                },
            decreases n - i,
        {
            proof {
                lemma_count_match_take_succ(self@, p, i as int);
                lemma_first_match_take_succ(self@, p, i as int);
            }
            if self.entries[i].name == cmd_string {
                assert(p(self@[i as int]));
                if found.is_some() {
                    proof {
                        lemma_count_match_take_le(self@, p, i as int + 1);
                    }
                    return Err(HumorError::CommandNotFound(cmd.to_owned()));
                }
                found = Some(i);
            }
            i += 1;
        }
        proof {
            assert(self@.take(n as int) =~= self@);
        }
        match found {
            Some(k) => Ok(self.entries[k].command.as_str()),
            None => Err(HumorError::CommandNotFound(cmd.to_owned())),
        }
    }

    /// Two-token lookup: the first command of that name within the
    /// domain, across its categories; fails with `CommandNotFound` and a
    /// "domain.name" label if the domain is absent or holds no such name.
    fn find_domain_command(&self, domain: &str, cmd: &str) -> (r: Result<&str, HumorError>)
        ensures
            res_view(r) == spec_find_domain(self@, domain@, cmd@),
    {
        let ghost p = by_domain_name(domain@, cmd@);
        let domain_string = domain.to_owned();
        let cmd_string = cmd.to_owned();
        let n = self.entries.len();
        let mut i: usize = 0;
        while i < n
            invariant
                0 <= i <= n,
                n == self.entries.len(),
                domain_string@ == domain@,
                cmd_string@ == cmd@,
                p == by_domain_name(domain@, cmd@),
                first_match(self@.take(i as int), p) is None,
            decreases n - i,
        {
            proof {
                lemma_first_match_take_succ(self@, p, i as int);
            }
            if self.entries[i].domain == domain_string && self.entries[i].name == cmd_string {
                assert(p(self@[i as int]));
                proof {
                    lemma_first_match_rest(self@, p, i as int + 1);
                }
                return Ok(self.entries[i].command.as_str());
            }
            i += 1;
        }
        proof {
            assert(self@.take(n as int) =~= self@);
        }
        Err(
            HumorError::CommandNotFound(
                String::from_str(domain).concat(".").concat(cmd),
            ),
        )
    }

    /// Three-token lookup by the exact triple; fails with
    /// `CommandNotFound` and a "domain.category.name" label if any
    /// segment is missing.
    fn find_full_command(&self, domain: &str, category: &str, cmd: &str) -> (r: Result<
        &str,
        HumorError,
    >)
        ensures
            res_view(r) == spec_find_full(self@, domain@, category@, cmd@),
    {
        let ghost p = by_triple(domain@, category@, cmd@);
        let domain_string = domain.to_owned();
        let category_string = category.to_owned();
        let cmd_string = cmd.to_owned();
        let n = self.entries.len();
        let mut i: usize = 0;
        while i < n
            invariant
                0 <= i <= n,
                n == self.entries.len(),
                domain_string@ == domain@,
                category_string@ == category@,
                cmd_string@ == cmd@,
                p == by_triple(domain@, category@, cmd@),
                first_match(self@.take(i as int), p) is None,
            decreases n - i,
        {
            proof {
                lemma_first_match_take_succ(self@, p, i as int);
            }
            if self.entries[i].domain == domain_string && self.entries[i].category
                == category_string && self.entries[i].name == cmd_string {
                assert(p(self@[i as int]));
                proof {
                    lemma_first_match_rest(self@, p, i as int + 1);
                }
                return Ok(self.entries[i].command.as_str());
            }
            i += 1;
        }
        proof {
            assert(self@.take(n as int) =~= self@);
        }
        Err(
            HumorError::CommandNotFound(
                String::from_str(domain).concat(".").concat(category).concat(".").concat(cmd),
            ),
        )
    }
}

/// If the first `j` entries hold a match, the whole sequence's first
/// match is the first match of its length-`j` prefix.
proof fn lemma_first_match_rest(s: Seq<EntryView>, p: spec_fn(EntryView) -> bool, j: int)
    requires
        0 <= j <= s.len(),
        first_match(s.take(j), p) is Some,
    ensures
        first_match(s, p) == first_match(s.take(j), p),
    decreases s.len() - j,
{
    if j == s.len() {
        assert(s.take(j) =~= s);
    } else {
        lemma_first_match_take_succ(s, p, j);
        lemma_first_match_rest(s, p, j + 1);
    }
}

/// Law: merging preserves the tree invariant.  Whatever the source — even
/// one holding internal duplicates — the tree a merge leaves behind never
/// holds two entries with the same (domain, name) pair, if the target did
/// not.
pub proof fn lemma_merge_preserves_wf(target: Seq<EntryView>, source: Seq<EntryView>)
    requires
        tree_wf(target),
    ensures
        tree_wf(merge_seq(target, source).tree),
    decreases source.len(),
{
    if source.len() == 0 {
    } else if has_key(target, source[0].domain, source[0].name) {
    } else {
        let pushed = target.push(source[0]);
        assert forall|i: int, j: int| 0 <= i < j < pushed.len() implies !(pushed[i].domain
            == pushed[j].domain && pushed[i].name == pushed[j].name) by {
            if j < target.len() {
            } else {
                assert(pushed[j] == source[0]);
                assert(pushed[i] == target[i]);
                if pushed[i].domain == source[0].domain && pushed[i].name == source[0].name {
                    assert(has_key(target, source[0].domain, source[0].name));
                }
            }
        }
        lemma_merge_preserves_wf(pushed, source.drop_first());
    }
}

/// Law: a merge that reports no duplicate has appended every source
/// entry to the target, in source order, and changed nothing else; in
/// particular every path of either input is found unchanged in the
/// combined tree.
pub proof fn lemma_merge_ok_appends(target: Seq<EntryView>, source: Seq<EntryView>)
    requires
        merge_seq(target, source).dup is None,
    ensures
        merge_seq(target, source).tree == target + source,
    decreases source.len(),
{
    if source.len() == 0 {
        assert(target + source =~= target);
    } else if has_key(target, source[0].domain, source[0].name) {
        assert(false);
    } else {
        lemma_merge_ok_appends(target.push(source[0]), source.drop_first());
        assert(target.push(source[0]) + source.drop_first() =~= target + source);
    }
}

/// Law: a merge whose source defines a (domain, name) pair that the
/// target already holds never succeeds, whether or not the categories of
/// the two definitions differ.
pub proof fn lemma_merge_rejects_duplicate(
    target: Seq<EntryView>,
    source: Seq<EntryView>,
    k: int,
)
    requires
        0 <= k < source.len(),
        has_key(target, source[k].domain, source[k].name),
    ensures
        merge_seq(target, source).dup is Some,
    decreases source.len(),
{
    if has_key(target, source[0].domain, source[0].name) {
    } else {
        let pushed = target.push(source[0]);
        assert(k != 0);
        let w = choose|i: int|
            0 <= i < target.len() && target[i].domain == source[k].domain && target[i].name
                == source[k].name;
        assert(pushed[w] == target[w]);
        assert(has_key(pushed, source[k].domain, source[k].name));
        assert(source.drop_first()[k - 1] == source[k]);
        lemma_merge_rejects_duplicate(pushed, source.drop_first(), k - 1);
    }
}

proof fn lemma_count_match_pos(s: Seq<EntryView>, p: spec_fn(EntryView) -> bool, i: int)
    requires
        0 <= i < s.len(),
        p(s[i]),
    ensures
        count_match(s, p) >= 1,
    decreases s.len(),
{
    if i > 0 {
        assert(s.drop_first()[i - 1] == s[i]);
        lemma_count_match_pos(s.drop_first(), p, i - 1);
    }
}

proof fn lemma_count_match_two(s: Seq<EntryView>, p: spec_fn(EntryView) -> bool, i: int, j: int)
    requires
        0 <= i < j < s.len(),
        p(s[i]),
        p(s[j]),
    ensures
        count_match(s, p) >= 2,
    decreases s.len(),
{
    if i == 0 {
        assert(s.drop_first()[j - 1] == s[j]);
        lemma_count_match_pos(s.drop_first(), p, j - 1);
    } else {
        assert(s.drop_first()[i - 1] == s[i]);
        assert(s.drop_first()[j - 1] == s[j]);
        lemma_count_match_two(s.drop_first(), p, i - 1, j - 1);
    }
}

/// Law: a bare name defined by two distinct entries anywhere in the tree
/// — necessarily under two different (domain, category) pairs, wherever
/// the tree invariant holds — cannot be resolved by a bare lookup: the
/// lookup fails with `CommandNotFound`, the same failure as absence.
pub proof fn lemma_ambiguous_bare_name(s: Seq<EntryView>, i: int, j: int)
    requires
        0 <= i < j < s.len(),
        s[i].name == s[j].name,
    ensures
        spec_find_unique(s, s[i].name) == Err::<Seq<char>, ErrorView>(
            ErrorView::CommandNotFound(s[i].name),
        ),
{
    let p = by_name(s[i].name);
    assert(p(s[i]));
    assert(p(s[j]));
    lemma_count_match_two(s, p, i, j);
}

} // verus!
