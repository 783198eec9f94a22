//! The category registry: resolving named categories against the built-in
//! table and each other, in dependency order, with cycle detection.

use crate::hir;
use crate::hir::str_eq;
use crate::matchers::CharacterCategory;
use crate::mir;
use crate::parser::{members_view, MemberView};
use vstd::prelude::*;

verus! {

/// A resolution error: a reference to a name nobody defines, or a set of
/// definitions that block each other.
#[derive(Debug, PartialEq, Eq)]
pub enum ResolutionError<'a> {
    /// A reference names neither a built-in nor a user category.
    UnknownCategory(&'a str),
    /// The named definitions each depend on another of them, or on a
    /// missing name, so none can ever be resolved.
    CyclicOrMissingDependency(Vec<&'a str>),
}

/// The first value bound to `name` in an association list.
pub open spec fn find_assoc<V>(s: Seq<(&str, V)>, name: Seq<char>) -> Option<V>
    decreases s.len(),
{
    if s.len() == 0 {
        None
    } else if s[0].0@ == name {
        Some(s[0].1)
    } else {
        find_assoc(s.drop_first(), name)
    }
}

/// Some entry of the list binds `name`.
pub open spec fn has_key<V>(s: Seq<(&str, V)>, name: Seq<char>) -> bool {
    exists|k: int| 0 <= k < s.len() && (#[trigger] s[k]).0@ == name
}

/// A list binds a name exactly when some entry carries it.
pub proof fn lemma_find_has_key<V>(s: Seq<(&str, V)>, name: Seq<char>)
    ensures
        find_assoc(s, name) is Some <==> has_key(s, name),
    decreases s.len(),
{
    if s.len() > 0 {
        lemma_find_has_key(s.drop_first(), name);
        if s[0].0@ == name {
        } else {
            if has_key(s.drop_first(), name) {
                let k = choose|k: int|
                    0 <= k < s.drop_first().len() && (#[trigger] s.drop_first()[k]).0@ == name;
                assert(s[k + 1].0@ == name);
            }
            if has_key(s, name) {
                let k = choose|k: int| 0 <= k < s.len() && (#[trigger] s[k]).0@ == name;
                assert(k > 0);
                assert(s.drop_first()[k - 1].0@ == name);
            }
        }
    }
}

/// Appending an entry never changes an existing binding.
pub proof fn lemma_find_assoc_push<V>(s: Seq<(&str, V)>, entry: (&str, V), name: Seq<char>)
    ensures
        find_assoc(s, name) is Some ==> find_assoc(s.push(entry), name) == find_assoc(s, name),
        find_assoc(s, name) is None && entry.0@ == name ==> find_assoc(s.push(entry), name)
            == Some(entry.1),
        find_assoc(s, name) is None && entry.0@ != name ==> find_assoc(s.push(entry), name)
            is None,
    decreases s.len(),
{
    if s.len() == 0 {
        assert(s.push(entry)[0] == entry);
        assert(s.push(entry).drop_first() =~= Seq::<(&str, V)>::empty());
        assert(find_assoc(Seq::<(&str, V)>::empty(), name) is None);
        if entry.0@ == name {
            assert(find_assoc(s.push(entry), name) == Some(entry.1));
        } else {
            assert(find_assoc(s.push(entry), name) is None);
        }
    } else {
        assert(s.push(entry)[0] == s[0]);
        assert(s.push(entry).drop_first() =~= s.drop_first().push(entry));
        lemma_find_assoc_push(s.drop_first(), entry, name);
        if s[0].0@ != name {
            assert(find_assoc(s, name) == find_assoc(s.drop_first(), name));
            assert(find_assoc(s.push(entry), name) == find_assoc(
                s.drop_first().push(entry),
                name,
            ));
            if find_assoc(s, name) is None && entry.0@ != name {
                assert(find_assoc(s.drop_first(), name) is None);
                assert(find_assoc(s.drop_first().push(entry), name) is None);
                assert(find_assoc(s.push(entry), name) is None);
            }
        }
    }
}

/// A key whose earlier entries all differ finds its own value.
pub proof fn lemma_find_assoc_at<V>(s: Seq<(&str, V)>, k: int)
    requires
        0 <= k < s.len(),
        forall|i: int| 0 <= i < k ==> (#[trigger] s[i]).0@ != s[k].0@,
    ensures
        find_assoc(s, s[k].0@) == Some(s[k].1),
    decreases k,
{
    if k == 0 {
    } else {
        assert(s[0].0@ != s[k].0@);
        assert(s.drop_first()[k - 1] == s[k]);
        assert forall|i: int| 0 <= i < k - 1 implies (#[trigger] s.drop_first()[i]).0@ != s
            .drop_first()[k - 1].0@ by {
            assert(s.drop_first()[i] == s[i + 1]);
        }
        lemma_find_assoc_at(s.drop_first(), k - 1);
    }
}

/// The key names of a resolved-category list, in order.
pub open spec fn reg_keys(s: Seq<(&str, Vec<mir::SetMember>)>) -> Seq<Seq<char>>
    decreases s.len(),
{
    if s.len() == 0 {
        Seq::empty()
    } else {
        reg_keys(s.drop_last()).push(s.last().0@)
    }
}

/// Indexing the key names indexes the list.
pub proof fn lemma_reg_keys(s: Seq<(&str, Vec<mir::SetMember>)>)
    ensures
        reg_keys(s).len() == s.len(),
        forall|p: int| 0 <= p < s.len() ==> reg_keys(s)[p] == (#[trigger] s[p]).0@,
    decreases s.len(),
{
    if s.len() > 0 {
        lemma_reg_keys(s.drop_last());
        assert(reg_keys(s) == reg_keys(s.drop_last()).push(s.last().0@));
        assert forall|p: int| 0 <= p < s.len() implies reg_keys(s)[p] == (#[trigger] s[p]).0@ by {
            if p < s.len() - 1 {
                assert(s.drop_last()[p] == s[p]);
                assert(reg_keys(s)[p] == reg_keys(s.drop_last())[p]);
            } else {
                assert(s.last() == s[p]);
            }
        }
    }
}

/// A registry holding exactly the built-in table and no user categories.
pub open spec fn builtin_std_registry(reg: CategoryRegistry) -> bool {
    &&& forall|n: Seq<char>|
        #[trigger] reg.builtin_of(n) == crate::builtin::spec_builtin_of(n)
    &&& forall|n: Seq<char>| (#[trigger] reg.resolved_of(n)) is None
}

/// Categories with no unresolved dependency are resolved first; the
/// registry holds what has been resolved so far, beside the built-ins.
pub struct CategoryRegistry<'a> {
    builtin: Vec<(&'a str, CharacterCategory)>,
    categories: Vec<(&'a str, Vec<mir::SetMember>)>,
}

/// A registry that additionally holds resolved named subexpressions.
pub struct RegexRegistry<'a> {
    builtin: Vec<(&'a str, CharacterCategory)>,
    categories: Vec<(&'a str, Vec<mir::SetMember>)>,
    regexes: Vec<(&'a str, mir::MIR<'a>)>,
}

/// Look up a built-in category in a name table.
pub fn find_builtin<'a, 'b>(table: &Vec<(&'a str, CharacterCategory)>, name: &'b str) -> (r:
    Option<CharacterCategory>)
    ensures
        r == find_assoc(table@, name@),
{
    let mut i: usize = 0;
    proof {
        assert(table@.skip(0) =~= table@);
    }
    while i < table.len()
        invariant
            0 <= i <= table@.len(),
            find_assoc(table@, name@) == find_assoc(table@.skip(i as int), name@),
        decreases table@.len() - i,
    {
        proof {
            assert(table@.skip(i as int)[0] == table@[i as int]);
            assert(table@.skip(i as int).drop_first() =~= table@.skip(i + 1));
        }
        if str_eq(table[i].0, name) {
            return Some(table[i].1);
        }
        i = i + 1;
    }
    proof {
        assert(table@.skip(table@.len() as int) =~= Seq::<(&str, CharacterCategory)>::empty());
    }
    None
}

impl<'a> CategoryRegistry<'a> {
    /// The built-in category bound to `name`, if any.
    pub closed spec fn builtin_of(&self, name: Seq<char>) -> Option<CharacterCategory> {
        find_assoc(self.builtin@, name)
    }

    /// The resolved members of the user category bound to `name`, if any.
    pub closed spec fn resolved_of(&self, name: Seq<char>) -> Option<Seq<mir::SetMember>> {
        match find_assoc(self.categories@, name) {
            Some(v) => Some(v@),
            None => None,
        }
    }

    /// Look up a built-in category by name.
    pub fn lookup_builtin(&self, name: &str) -> (r: Option<CharacterCategory>)
        ensures
            r == self.builtin_of(name@),
    {
        find_builtin(&self.builtin, name)
    }

    /// Look up the resolved members of a user category by name.
    pub fn lookup_category(&self, name: &str) -> (r: Option<&Vec<mir::SetMember>>)
        ensures
            match r {
                Some(v) => self.resolved_of(name@) == Some(v@),
                None => self.resolved_of(name@) is None,
            },
    {
        let mut i: usize = 0;
        proof {
            assert(self.categories@.skip(0) =~= self.categories@);
        }
        while i < self.categories.len()
            invariant
                0 <= i <= self.categories@.len(),
                find_assoc(self.categories@, name@) == find_assoc(
                    self.categories@.skip(i as int),
                    name@,
                ),
            decreases self.categories@.len() - i,
        {
            proof {
                assert(self.categories@.skip(i as int)[0] == self.categories@[i as int]);
                assert(self.categories@.skip(i as int).drop_first() =~= self.categories@.skip(
                    i + 1,
                ));
            }
            if str_eq(self.categories[i].0, name) {
                return Some(&self.categories[i].1);
            }
            i = i + 1;
        }
        proof {
            assert(self.categories@.skip(self.categories@.len() as int) =~= Seq::<
                (&str, Vec<mir::SetMember>),
            >::empty());
        }
        None
    }
}

/// The members one raw member contributes after substitution: a literal
/// stays itself, a built-in name becomes its category tag, and a resolved
/// user category is spliced in.
pub open spec fn subst_one(m: MemberView, reg: CategoryRegistry) -> Seq<mir::SetMember> {
    match m {
        MemberView::Character(c) => Seq::empty().push(mir::SetMember::Character(c)),
        MemberView::Category(name) => match reg.builtin_of(name) {
            Some(tag) => Seq::empty().push(mir::SetMember::Category(tag)),
            None => match reg.resolved_of(name) {
                Some(v) => v,
                None => Seq::empty(),
            },
        },
    }
}

/// The resolution of a whole raw member list against a registry.
pub open spec fn spec_subst(ms: Seq<MemberView>, reg: CategoryRegistry) -> Seq<mir::SetMember>
    decreases ms.len(),
{
    if ms.len() == 0 {
        Seq::empty()
    } else {
        subst_one(ms[0], reg) + spec_subst(ms.drop_first(), reg)
    }
}

/// Resolution distributes over concatenation of member lists.
pub proof fn lemma_subst_concat(a: Seq<MemberView>, b: Seq<MemberView>, reg: CategoryRegistry)
    ensures
        spec_subst(a + b, reg) == spec_subst(a, reg) + spec_subst(b, reg),
    decreases a.len(),
{
    if a.len() == 0 {
        assert(a + b =~= b);
        assert(spec_subst(a, reg) + spec_subst(b, reg) =~= spec_subst(b, reg));
    } else {
        assert((a + b)[0] == a[0]);
        assert((a + b).drop_first() =~= a.drop_first() + b);
        lemma_subst_concat(a.drop_first(), b, reg);
        assert(subst_one(a[0], reg) + (spec_subst(a.drop_first(), reg) + spec_subst(b, reg)) =~= (
        subst_one(a[0], reg) + spec_subst(a.drop_first(), reg)) + spec_subst(b, reg));
    }
}

/// Resolving one more member appends that member's contribution.
proof fn lemma_subst_take_step(ms: Seq<MemberView>, i: int, reg: CategoryRegistry)
    requires
        0 <= i < ms.len(),
    ensures
        spec_subst(ms.take(i + 1), reg) == spec_subst(ms.take(i), reg) + subst_one(ms[i], reg),
{
    let single = Seq::<MemberView>::empty().push(ms[i]);
    assert(ms.take(i + 1) =~= ms.take(i) + single);
    lemma_subst_concat(ms.take(i), single, reg);
    assert(single[0] == ms[i]);
    assert(single.drop_first() =~= Seq::<MemberView>::empty());
    assert(spec_subst(single, reg) == subst_one(ms[i], reg) + spec_subst(
        single.drop_first(),
        reg,
    ));
    assert(subst_one(ms[i], reg) + Seq::<mir::SetMember>::empty() =~= subst_one(ms[i], reg));
}

/// An order in which the categories can be resolved: each listed name is
/// an input key, no name repeats, every input key is listed, and every
/// non-builtin dependency of a listed name appears earlier in the list.
/// A cyclic input, or one depending on a missing name, admits no such
/// order, so resolution succeeds only on well-founded inputs.
pub open spec fn resolution_order_ok(
    input: Seq<(&str, Vec<hir::SetMember>)>,
    builtin: Seq<(&str, CharacterCategory)>,
    ord: Seq<Seq<char>>,
) -> bool {
    &&& forall|p: int, q: int| 0 <= p < q < ord.len() ==> ord[p] != ord[q]
    &&& forall|p: int| 0 <= p < ord.len() ==> has_key(input, #[trigger] ord[p])
    &&& forall|k: int|
        0 <= k < input.len() ==> exists|p: int|
            0 <= p < ord.len() && #[trigger] ord[p] == (#[trigger] input[k]).0@
    &&& forall|p: int|
        0 <= p < ord.len() ==> (find_assoc(input, #[trigger] ord[p]) matches Some(v)
            ==> dep_names_earlier(members_view(v@), builtin, ord, p))
}

/// Every category name among the members is a builtin or appears in the
/// order before position `p`.
pub open spec fn dep_names_earlier(
    ms: Seq<MemberView>,
    builtin: Seq<(&str, CharacterCategory)>,
    ord: Seq<Seq<char>>,
    p: int,
) -> bool {
    forall|m: int|
        0 <= m < ms.len() ==> ((#[trigger] ms[m]) matches MemberView::Category(d) ==> (find_assoc(
            builtin,
            d,
        ) is Some || exists|q: int| 0 <= q < p && #[trigger] ord[q] == d))
}

/// Some entry of a name list carries these characters.
pub open spec fn has_name(names: Seq<&str>, d: Seq<char>) -> bool {
    exists|j: int| 0 <= j < names.len() && (#[trigger] names[j])@ == d
}

/// The definition of `name` refers to a category that is neither built in
/// nor ever resolvable: it is missing from the input or blocked itself.
pub open spec fn blocked_entry(
    input: Seq<(&str, Vec<hir::SetMember>)>,
    builtin: Seq<(&str, CharacterCategory)>,
    stuck: Seq<&str>,
    name: Seq<char>,
) -> bool {
    match find_assoc(input, name) {
        Some(v) => exists|m: int|
            {
                &&& 0 <= m < members_view(v@).len()
                &&& ((#[trigger] members_view(v@)[m]) matches MemberView::Category(d)
                    && find_assoc(builtin, d) is None && (find_assoc(input, d) is None
                    || has_name(stuck, d)))
            },
        None => false,
    }
}

/// Every raw member of `ms` that names a category can be resolved by `reg`.
pub open spec fn deps_ready(ms: Seq<MemberView>, reg: CategoryRegistry) -> bool {
    forall|k: int|
        0 <= k < ms.len() ==> ((#[trigger] ms[k]) matches MemberView::Category(name) ==> (
        reg.builtin_of(name) is Some || reg.resolved_of(name) is Some))
}

/// Extending the registry with one more entry keeps every substitution
/// whose dependencies it already covered.
proof fn lemma_subst_stable(
    ms: Seq<MemberView>,
    reg0: CategoryRegistry,
    reg1: CategoryRegistry,
    entry: (&str, Vec<mir::SetMember>),
)
    requires
        reg1.builtin@ == reg0.builtin@,
        reg1.categories@ == reg0.categories@.push(entry),
        deps_ready(ms, reg0),
    ensures
        spec_subst(ms, reg1) == spec_subst(ms, reg0),
        deps_ready(ms, reg1),
    decreases ms.len(),
{
    assert forall|n: Seq<char>| true implies reg1.builtin_of(n) == reg0.builtin_of(n) by {}
    if ms.len() > 0 {
        assert(ms[0] == ms.index(0));
        match ms[0] {
            MemberView::Category(name) => {
                lemma_find_assoc_push(reg0.categories@, entry, name);
            },
            _ => {},
        }
        assert forall|k: int| 0 <= k < ms.drop_first().len() implies ((#[trigger] ms.drop_first()[
            k]) matches MemberView::Category(name) ==> (reg0.builtin_of(name) is Some
            || reg0.resolved_of(name) is Some)) by {
            assert(ms.drop_first()[k] == ms[k + 1]);
        }
        lemma_subst_stable(ms.drop_first(), reg0, reg1, entry);
        assert(subst_one(ms[0], reg1) == subst_one(ms[0], reg0));
    }
    assert forall|k: int| 0 <= k < ms.len() implies ((#[trigger] ms[k])
        matches MemberView::Category(name) ==> (reg1.builtin_of(name) is Some || reg1.resolved_of(
        name,
    ) is Some)) by {
        match ms[k] {
            MemberView::Category(name) => {
                lemma_find_assoc_push(reg0.categories@, entry, name);
            },
            _ => {},
        }
    }
}

/// Check whether every category named by `members` is already resolvable.
fn deps_satisfied<'a>(members: &Vec<hir::SetMember<'a>>, reg: &CategoryRegistry<'a>) -> (r: bool)
    ensures
        r == deps_ready(members_view(members@), *reg),
{
    proof {
        crate::parser::lemma_members_view(members@);
    }
    let ghost mv = members_view(members@);
    let mut i: usize = 0;
    while i < members.len()
        invariant
            0 <= i <= members@.len(),
            mv == members_view(members@),
            mv.len() == members@.len(),
            forall|k: int| 0 <= k < members@.len() ==> mv[k] == members@[k]@,
            forall|k: int|
                0 <= k < i ==> ((#[trigger] mv[k]) matches MemberView::Category(name) ==> (
                reg.builtin_of(name) is Some || reg.resolved_of(name) is Some)),
        decreases members@.len() - i,
    {
        match &members[i] {
            hir::SetMember::Character(_) => {},
            hir::SetMember::Category(name) => {
                if reg.lookup_builtin(name).is_none() {
                    if reg.lookup_category(name).is_none() {
                        proof {
                            assert(mv[i as int] matches MemberView::Category(n) && n == name@);
                        }
                        return false;
                    }
                }
            },
        }
        i = i + 1;
    }
    true
}

/// Resolve one raw member list against a registry whose entries already
/// cover every name it uses.
fn create_category<'a>(members: &Vec<hir::SetMember<'a>>, reg: &CategoryRegistry<'a>) -> (r: Vec<
    mir::SetMember,
>)
    requires
        deps_ready(members_view(members@), *reg),
    ensures
        r@ == spec_subst(members_view(members@), *reg),
{
    proof {
        crate::parser::lemma_members_view(members@);
    }
    let ghost mv = members_view(members@);
    let mut out: Vec<mir::SetMember> = Vec::new();
    let mut i: usize = 0;
    while i < members.len()
        invariant
            0 <= i <= members@.len(),
            mv == members_view(members@),
            mv.len() == members@.len(),
            forall|k: int| 0 <= k < members@.len() ==> mv[k] == members@[k]@,
            deps_ready(mv, *reg),
            out@ == spec_subst(mv.take(i as int), *reg),
        decreases members@.len() - i,
    {
        let ghost o0 = out@;
        match &members[i] {
            hir::SetMember::Character(c) => {
                out.push(mir::SetMember::Character(*c));
            },
            hir::SetMember::Category(name) => {
                match reg.lookup_builtin(name) {
                    Some(tag) => {
                        out.push(mir::SetMember::Category(tag));
                    },
                    None => {
                        match reg.lookup_category(name) {
                            Some(v) => {
                                let mut k: usize = 0;
                                while k < v.len()
                                    invariant
                                        0 <= k <= v@.len(),
                                        out@ == o0 + v@.take(k as int),
                                    decreases v@.len() - k,
                                {
                                    out.push(v[k]);
                                    proof {
                                        assert(out@ =~= o0 + v@.take(k + 1));
                                    }
                                    k = k + 1;
                                }
                                proof {
                                    assert(v@.take(v@.len() as int) =~= v@);
                                }
                            },
                            None => {
                                proof {
                                    assert(mv[i as int] matches MemberView::Category(n) && n
                                        == name@);
                                    assert(false);
                                }
                            },
                        }
                    },
                }
            },
        }
        proof {
            lemma_subst_take_step(mv, i as int, *reg);
            if o0.len() == 0 {
                assert(out@ =~= o0 + out@.skip(0)) by {
                    assert(o0 + out@.skip(0) =~= out@.skip(0));
                    assert(out@.skip(0) =~= out@);
                }
            }
            assert(out@ =~= spec_subst(mv.take(i as int), *reg) + subst_one(mv[i as int], *reg));
            assert(out@ =~= spec_subst(mv.take(i + 1), *reg));
        }
        i = i + 1;
    }
    proof {
        assert(mv.take(mv.len() as int) =~= mv);
    }
    out
}

/// Find the first remaining category whose dependencies are covered, or
/// the list's length when none is.
fn find_ready<'a>(
    remaining: &Vec<(&'a str, Vec<hir::SetMember<'a>>)>,
    reg: &CategoryRegistry<'a>,
) -> (r: usize)
    ensures
        r <= remaining@.len(),
        r < remaining@.len() ==> deps_ready(members_view(remaining@[r as int].1@), *reg),
        r == remaining@.len() ==> forall|k: int|
            0 <= k < remaining@.len() ==> !deps_ready(
                members_view((#[trigger] remaining@[k]).1@),
                *reg,
            ),
{
    let mut i: usize = 0;
    while i < remaining.len()
        invariant
            0 <= i <= remaining@.len(),
            forall|k: int|
                0 <= k < i ==> !deps_ready(members_view((#[trigger] remaining@[k]).1@), *reg),
        decreases remaining@.len() - i,
    {
        if deps_satisfied(&remaining[i].1, reg) {
            return i;
        }
        i = i + 1;
    }
    i
}

/// Build a registry by resolving every category whose dependencies are
/// already covered, repeatedly, until all are resolved or the remaining
/// ones block each other.
#[verifier::rlimit(100)]
#[verifier::spinoff_prover]
pub fn convert_categories<'a>(
    categories: Vec<(&'a str, Vec<hir::SetMember<'a>>)>,
    builtin: Vec<(&'a str, CharacterCategory)>,
) -> (r: Result<CategoryRegistry<'a>, ResolutionError<'a>>)
    requires
        forall|i: int, j: int|
            0 <= i < j < categories@.len() ==> (#[trigger] categories@[i]).0@ != (
            #[trigger] categories@[j]).0@,
    ensures
        r matches Ok(reg) ==> ({
            let input = categories@;
            &&& forall|n: Seq<char>| #[trigger] reg.builtin_of(n) == find_assoc(builtin@, n)
            &&& forall|n: Seq<char>|
                (#[trigger] reg.resolved_of(n)) is Some <==> find_assoc(input, n) is Some
            &&& forall|k: int|
                0 <= k < input.len() ==> reg.resolved_of((#[trigger] input[k]).0@) == Some(
                    spec_subst(members_view(input[k].1@), reg),
                )
            &&& exists|ord: Seq<Seq<char>>| resolution_order_ok(input, builtin@, ord)
        }),
        r matches Err(e) ==> ({
            let input = categories@;
            &&& e matches ResolutionError::CyclicOrMissingDependency(stuck)
            &&& stuck@.len() > 0
            &&& forall|k: int|
                0 <= k < stuck@.len() ==> has_key(input, (#[trigger] stuck@[k])@)
            &&& forall|k: int|
                0 <= k < stuck@.len() ==> blocked_entry(
                    input,
                    builtin@,
                    stuck@,
                    (#[trigger] stuck@[k])@,
                )
        }),
{
    let ghost input = categories@;
    let mut remaining = categories;
    let mut reg = CategoryRegistry { builtin, categories: Vec::new() };
    proof {
        assert forall|k: int| 0 <= k < input.len() implies find_assoc(
            input,
            (#[trigger] input[k]).0@,
        ) == Some(input[k].1) by {
            lemma_find_assoc_at(input, k);
        }
    }
    loop
        invariant
            input == categories@,
            reg.builtin@ == builtin@,
            forall|i: int, j: int|
                0 <= i < j < input.len() ==> (#[trigger] input[i]).0@ != (
                #[trigger] input[j]).0@,
            forall|k: int|
                0 <= k < input.len() ==> find_assoc(input, (#[trigger] input[k]).0@) == Some(
                    input[k].1,
                ),
            forall|n: Seq<char>|
                ((#[trigger] reg.resolved_of(n)) is Some || has_key(remaining@, n)) <==> has_key(
                    input,
                    n,
                ),
            forall|n: Seq<char>| (#[trigger] reg.resolved_of(n)) is Some ==> !has_key(
                remaining@,
                n,
            ),
            forall|k: int|
                0 <= k < remaining@.len() ==> find_assoc(input, (#[trigger] remaining@[k]).0@)
                    == Some(remaining@[k].1),
            forall|i: int, j: int|
                0 <= i < j < remaining@.len() ==> (#[trigger] remaining@[i]).0@ != (
                #[trigger] remaining@[j]).0@,
            forall|k: int|
                0 <= k < input.len() ==> ((#[trigger] reg.resolved_of(input[k].0@)) is Some
                    ==> reg.resolved_of(input[k].0@) == Some(
                    spec_subst(members_view(input[k].1@), reg),
                ) && deps_ready(members_view(input[k].1@), reg)),
            forall|p: int, q: int|
                0 <= p < q < reg.categories@.len() ==> (#[trigger] reg.categories@[p]).0@ != (
                #[trigger] reg.categories@[q]).0@,
            forall|p: int|
                0 <= p < reg.categories@.len() ==> (find_assoc(
                    input,
                    (#[trigger] reg.categories@[p]).0@,
                ) matches Some(v) && dep_names_earlier(
                    members_view(v@),
                    builtin@,
                    reg_keys(reg.categories@),
                    p,
                )),
        decreases remaining@.len(),
    {
        if remaining.len() == 0 {
            proof {
                assert forall|n: Seq<char>|
                    (#[trigger] reg.resolved_of(n)) is Some <==> find_assoc(
                        input,
                        n,
                    ) is Some by {
                    lemma_find_has_key(input, n);
                }
                assert forall|k: int| 0 <= k < input.len() implies reg.resolved_of(
                    (#[trigger] input[k]).0@,
                ) == Some(spec_subst(members_view(input[k].1@), reg)) by {
                    assert(has_key(input, input[k].0@));
                }
                // the insertion order of the resolved list is a witness
                // that the dependency graph was well founded
                let ord = reg_keys(reg.categories@);
                lemma_reg_keys(reg.categories@);
                assert forall|p: int| 0 <= p < ord.len() implies has_key(
                    input,
                    #[trigger] ord[p],
                ) by {
                    assert(ord[p] == reg.categories@[p].0@);
                    assert(find_assoc(input, reg.categories@[p].0@) is Some);
                    lemma_find_has_key(input, reg.categories@[p].0@);
                }
                assert forall|k: int| 0 <= k < input.len() implies exists|p: int|
                    0 <= p < ord.len() && #[trigger] ord[p] == (#[trigger] input[k]).0@ by {
                    assert(reg.resolved_of(input[k].0@) is Some);
                    lemma_find_has_key(reg.categories@, input[k].0@);
                    let q = choose|q: int|
                        0 <= q < reg.categories@.len() && (#[trigger] reg.categories@[q]).0@
                            == input[k].0@;
                    assert(ord[q] == input[k].0@);
                }
                assert forall|p: int, q: int| 0 <= p < q < ord.len() implies ord[p] != ord[
                q] by {
                    assert(ord[p] == reg.categories@[p].0@);
                    assert(ord[q] == reg.categories@[q].0@);
                }
                assert forall|p: int|
                    0 <= p < ord.len() implies (find_assoc(input, #[trigger] ord[p])
                    matches Some(v) ==> dep_names_earlier(
                    members_view(v@),
                    builtin@,
                    ord,
                    p,
                )) by {
                    assert(ord[p] == reg.categories@[p].0@);
                }
                assert(resolution_order_ok(input, builtin@, ord));
            }
            return Ok(reg);
        }
        let pick = find_ready(&remaining, &reg);
        if pick >= remaining.len() {
            // nothing can make progress: report the stuck names
            let ghost rem = remaining@;
            let mut stuck: Vec<&'a str> = Vec::new();
            let mut k: usize = 0;
            while k < remaining.len()
                invariant
                    0 <= k <= remaining@.len(),
                    rem == remaining@,
                    stuck@.len() == k,
                    forall|m: int| 0 <= m < k ==> stuck@[m] == (#[trigger] remaining@[m]).0,
                decreases remaining@.len() - k,
            {
                stuck.push(remaining[k].0);
                k = k + 1;
            }
            proof {
                assert forall|q: int| 0 <= q < stuck@.len() implies has_key(
                    input,
                    (#[trigger] stuck@[q])@,
                ) by {
                    assert(stuck@[q] == rem[q].0);
                    assert(find_assoc(input, rem[q].0@) == Some(rem[q].1));
                    lemma_find_has_key(input, rem[q].0@);
                }
                assert forall|q: int| 0 <= q < stuck@.len() implies blocked_entry(
                    input,
                    builtin@,
                    stuck@,
                    (#[trigger] stuck@[q])@,
                ) by {
                    assert(stuck@[q] == rem[q].0);
                    assert(!deps_ready(members_view(rem[q].1@), reg));
                    assert(find_assoc(input, stuck@[q]@) == Some(rem[q].1));
                    let mv = members_view(rem[q].1@);
                    let m = choose|m: int|
                        0 <= m < mv.len() && !((#[trigger] mv[m]) matches MemberView::Category(
                            name,
                        ) ==> (reg.builtin_of(name) is Some || reg.resolved_of(name) is Some));
                    assert(mv[m] matches MemberView::Category(d0));
                    let d = mv[m]->Category_0;
                    assert(reg.builtin_of(d) is None && reg.resolved_of(d) is None);
                    if find_assoc(input, d) is Some {
                        lemma_find_has_key(input, d);
                        assert(has_key(remaining@, d));
                        let j = choose|j: int|
                            0 <= j < rem.len() && (#[trigger] rem[j]).0@ == d;
                        assert(stuck@[j]@ == d);
                        assert(has_name(stuck@, d));
                    }
                    assert(mv[m] matches MemberView::Category(dd) && dd == d);
                }
            }
            return Err(ResolutionError::CyclicOrMissingDependency(stuck));
        }
        let ghost rem0 = remaining@;
        let (name, members) = remaining.remove(pick);
        let ghost removed = rem0[pick as int];
        let resolved = create_category(&members, &reg);
        let ghost reg0 = reg;
        let ghost mvp = members_view(members@);
        reg.categories.push((name, resolved));
        proof {
            let entry = reg.categories@.last();
            assert(reg.categories@ == reg0.categories@.push(entry));
            assert(entry.0 == name && entry.1@ == spec_subst(mvp, reg0));
            // the new binding, and stability of the old ones
            assert forall|n: Seq<char>| true implies #[trigger] reg.resolved_of(n) == (if reg0
                .resolved_of(n) is Some {
                reg0.resolved_of(n)
            } else if n == name@ {
                Some(entry.1@)
            } else {
                None
            }) by {
                lemma_find_assoc_push(reg0.categories@, entry, n);
            }
            // the removed entry's key was unresolved before
            assert(find_assoc(input, name@) == Some(removed.1));
            assert(members == removed.1);
            // remaining@ lost exactly the picked entry
            assert(remaining@ =~= rem0.subrange(0, pick as int) + rem0.subrange(
                pick + 1,
                rem0.len() as int,
            ));
            assert forall|k: int| 0 <= k < remaining@.len() implies (#[trigger] remaining@[k])
                == (if k < pick {
                rem0[k]
            } else {
                rem0[k + 1]
            }) by {}
            // coverage and disjointness
            assert forall|n: Seq<char>| true implies ((#[trigger] reg.resolved_of(n)) is Some
                || has_key(remaining@, n)) <==> has_key(input, n) by {
                if has_key(remaining@, n) {
                    let k = choose|k: int|
                        0 <= k < remaining@.len() && (#[trigger] remaining@[k]).0@ == n;
                    if k < pick {
                        assert(rem0[k].0@ == n);
                    } else {
                        assert(rem0[k + 1].0@ == n);
                    }
                    assert(has_key(rem0, n));
                }
                if has_key(rem0, n) && n != name@ {
                    let k = choose|k: int| 0 <= k < rem0.len() && (#[trigger] rem0[k]).0@ == n;
                    if k < pick {
                        assert(remaining@[k].0@ == n);
                    } else if k > pick {
                        assert(remaining@[k - 1].0@ == n);
                    } else {
                        assert(false);
                    }
                    assert(has_key(remaining@, n));
                }
                if n == name@ {
                    assert(reg.resolved_of(n) is Some);
                    assert(has_key(input, n)) by {
                        lemma_find_has_key(input, n);
                    }
                }
            }
            assert forall|n: Seq<char>| (#[trigger] reg.resolved_of(n)) is Some implies !has_key(
                remaining@,
                n,
            ) by {
                if n == name@ {
                    if has_key(remaining@, n) {
                        let k = choose|k: int|
                            0 <= k < remaining@.len() && (#[trigger] remaining@[k]).0@ == n;
                        if k < pick {
                            assert(rem0[k].0@ == name@ && rem0[pick as int].0@ == name@);
                        } else {
                            assert(rem0[k + 1].0@ == name@ && rem0[pick as int].0@ == name@);
                        }
                        assert(false);
                    }
                } else {
                    if has_key(remaining@, n) {
                        let k = choose|k: int|
                            0 <= k < remaining@.len() && (#[trigger] remaining@[k]).0@ == n;
                        if k < pick {
                            assert(rem0[k].0@ == n);
                        } else {
                            assert(rem0[k + 1].0@ == n);
                        }
                        assert(has_key(rem0, n));
                        assert(false);
                    }
                }
            }
            // key uniqueness: the new key was still unresolved
            assert(find_assoc(reg0.categories@, name@) is None) by {
                assert(has_key(rem0, name@)) by {
                    assert(rem0[pick as int].0@ == name@);
                }
            }
            assert forall|p: int, q: int|
                0 <= p < q < reg.categories@.len() implies (#[trigger] reg.categories@[p]).0@
                != (#[trigger] reg.categories@[q]).0@ by {
                if q < reg0.categories@.len() {
                    assert(reg.categories@[p] == reg0.categories@[p]);
                    assert(reg.categories@[q] == reg0.categories@[q]);
                } else {
                    assert(reg.categories@[q] == entry);
                    assert(reg.categories@[p] == reg0.categories@[p]);
                    if reg0.categories@[p].0@ == name@ {
                        lemma_find_has_key(reg0.categories@, name@);
                        assert(false);
                    }
                }
            }
            // the dependency-order bookkeeping extends by one entry
            lemma_reg_keys(reg.categories@);
            lemma_reg_keys(reg0.categories@);
            assert forall|p: int|
                0 <= p < reg.categories@.len() implies (find_assoc(
                input,
                (#[trigger] reg.categories@[p]).0@,
            ) matches Some(v) && dep_names_earlier(
                members_view(v@),
                builtin@,
                reg_keys(reg.categories@),
                p,
            )) by {
                if p < reg0.categories@.len() {
                    assert(reg.categories@[p] == reg0.categories@[p]);
                    match find_assoc(input, reg0.categories@[p].0@) {
                        Some(v) => {
                            assert(dep_names_earlier(
                                members_view(v@),
                                builtin@,
                                reg_keys(reg0.categories@),
                                p,
                            ));
                            assert forall|m: int|
                                0 <= m < members_view(v@).len() implies ((
                            #[trigger] members_view(v@)[m]) matches MemberView::Category(d)
                                ==> (find_assoc(builtin@, d) is Some || exists|q: int|
                                0 <= q < p && #[trigger] reg_keys(reg.categories@)[q]
                                    == d)) by {
                                match members_view(v@)[m] {
                                    MemberView::Category(d) => {
                                        if find_assoc(builtin@, d) is None {
                                            let q = choose|q: int|
                                                0 <= q < p && #[trigger] reg_keys(
                                                    reg0.categories@,
                                                )[q] == d;
                                            assert(reg_keys(reg0.categories@)[q]
                                                == reg0.categories@[q].0@);
                                            assert(reg.categories@[q] == reg0.categories@[q]);
                                            assert(reg_keys(reg.categories@)[q]
                                                == reg.categories@[q].0@);
                                            assert(reg_keys(reg.categories@)[q] == d);
                                        }
                                    },
                                    _ => {},
                                }
                            }
                        },
                        None => {},
                    }
                } else {
                    // the freshly pushed entry: its dependencies were all
                    // covered when it was picked
                    assert(reg.categories@[p] == entry);
                    assert(entry.0@ == name@);
                    assert(find_assoc(input, name@) == Some(removed.1));
                    assert(deps_ready(mvp, reg0));
                    assert(members_view(removed.1@) == mvp);
                    assert forall|m: int|
                        0 <= m < mvp.len() implies ((#[trigger] mvp[m])
                        matches MemberView::Category(d) ==> (find_assoc(builtin@, d) is Some
                        || exists|q: int|
                        0 <= q < p && #[trigger] reg_keys(reg.categories@)[q] == d)) by {
                        match mvp[m] {
                            MemberView::Category(d) => {
                                if find_assoc(builtin@, d) is None {
                                    assert(reg0.builtin_of(d) is None);
                                    assert(reg0.resolved_of(d) is Some);
                                    lemma_find_has_key(reg0.categories@, d);
                                    let q = choose|q: int|
                                        0 <= q < reg0.categories@.len() && (
                                        #[trigger] reg0.categories@[q]).0@ == d;
                                    assert(reg.categories@[q] == reg0.categories@[q]);
                                    assert(reg_keys(reg.categories@)[q]
                                        == reg.categories@[q].0@);
                                    assert(reg_keys(reg.categories@)[q] == d);
                                }
                            },
                            _ => {},
                        }
                    }
                }
            }
            // faithfulness of all resolved entries, old and new
            assert forall|k: int| 0 <= k < input.len() implies ((#[trigger] reg.resolved_of(
                input[k].0@,
            )) is Some ==> reg.resolved_of(input[k].0@) == Some(
                spec_subst(members_view(input[k].1@), reg),
            ) && deps_ready(members_view(input[k].1@), reg)) by {
                if reg.resolved_of(input[k].0@) is Some {
                    if reg0.resolved_of(input[k].0@) is Some {
                        lemma_subst_stable(members_view(input[k].1@), reg0, reg, entry);
                    } else {
                        assert(input[k].0@ == name@);
                        assert(input[k].1 == removed.1);
                        lemma_subst_stable(mvp, reg0, reg, entry);
                        assert(reg.resolved_of(name@) == Some(spec_subst(mvp, reg)));
                    }
                }
            }
        }
    }
}

/// The result of resolving one raw set member inside a regex: known names
/// are substituted, an unknown name is reported.
pub open spec fn resolve_member(m: MemberView, reg: CategoryRegistry) -> Result<
    Seq<mir::SetMember>,
    Seq<char>,
> {
    match m {
        MemberView::Character(c) => Ok(Seq::empty().push(mir::SetMember::Character(c))),
        MemberView::Category(name) => match reg.builtin_of(name) {
            Some(tag) => Ok(Seq::empty().push(mir::SetMember::Category(tag))),
            None => match reg.resolved_of(name) {
                Some(v) => Ok(v),
                None => Err(name),
            },
        },
    }
}

/// The result of resolving a whole raw member list.
pub open spec fn resolve_members(ms: Seq<MemberView>, reg: CategoryRegistry) -> Result<
    Seq<mir::SetMember>,
    Seq<char>,
>
    decreases ms.len(),
{
    if ms.len() == 0 {
        Ok(Seq::empty())
    } else {
        match resolve_member(ms[0], reg) {
            Err(n) => Err(n),
            Ok(first) => match resolve_members(ms.drop_first(), reg) {
                Err(n) => Err(n),
                Ok(rest) => Ok(first + rest),
            },
        }
    }
}

/// The resolution of a regex: named references are replaced by concrete
/// matchers, following the registry; the first unknown name is reported.
pub open spec fn resolve_view(h: crate::parser::HirView, reg: CategoryRegistry) -> Result<
    crate::mir::MirView,
    Seq<char>,
>
    decreases h,
{
    match h {
        crate::parser::HirView::AnyChar => Ok(
            crate::mir::MirView::Category(CharacterCategory::Any),
        ),
        crate::parser::HirView::Sequence(s) => Ok(crate::mir::MirView::Sequence(s)),
        crate::parser::HirView::SubRegex(name) => match reg.builtin_of(name) {
            Some(tag) => Ok(crate::mir::MirView::Category(tag)),
            None => match reg.resolved_of(name) {
                Some(v) => Ok(crate::mir::MirView::CharSet(v)),
                None => Err(name),
            },
        },
        crate::parser::HirView::Repetition { regex, min, max } => match resolve_view(*regex, reg) {
            Ok(m) => Ok(crate::mir::MirView::Repetition { regex: Box::new(m), min, max }),
            Err(n) => Err(n),
        },
        crate::parser::HirView::Alternation(rs) => match resolve_views(rs, reg) {
            Ok(ms) => Ok(crate::mir::MirView::Alternation(ms)),
            Err(n) => Err(n),
        },
        crate::parser::HirView::CharSet(ms) => match resolve_members(ms, reg) {
            Ok(r) => Ok(crate::mir::MirView::CharSet(r)),
            Err(n) => Err(n),
        },
        crate::parser::HirView::NegatedSet(ms) => match resolve_members(ms, reg) {
            Ok(r) => Ok(crate::mir::MirView::NegatedSet(r)),
            Err(n) => Err(n),
        },
        crate::parser::HirView::Concatenation(rs) => match resolve_views(rs, reg) {
            Ok(ms) => Ok(crate::mir::MirView::Concatenation(ms)),
            Err(n) => Err(n),
        },
    }
}

/// The resolution of a list of regexes: the first unknown name wins.
pub open spec fn resolve_views(hs: Seq<crate::parser::HirView>, reg: CategoryRegistry) -> Result<
    Seq<crate::mir::MirView>,
    Seq<char>,
>
    decreases hs,
{
    if hs.len() == 0 {
        Ok(Seq::empty())
    } else {
        match resolve_view(hs[0], reg) {
            Err(n) => Err(n),
            Ok(first) => match resolve_views(hs.drop_first(), reg) {
                Err(n) => Err(n),
                Ok(rest) => Ok(Seq::empty().push(first) + rest),
            },
        }
    }
}

/// Resolve the raw members of one regex set against the registry.
fn resolve_member_list<'a>(
    members: &Vec<hir::SetMember<'a>>,
    reg: &CategoryRegistry<'a>,
) -> (r: Result<Vec<mir::SetMember>, ResolutionError<'a>>)
    ensures
        ({
            let mv = members_view(members@);
            match resolve_members(mv, *reg) {
                Ok(out) => r matches Ok(v) && v@ == out,
                Err(n) => r matches Err(ResolutionError::UnknownCategory(u)) && u@ == n,
            }
        }),
{
    proof {
        crate::parser::lemma_members_view(members@);
    }
    let ghost mv = members_view(members@);
    let mut out: Vec<mir::SetMember> = Vec::new();
    proof {
        assert(mv.skip(0) =~= mv);
        match resolve_members(mv, *reg) {
            Ok(rest) => {
                assert(Seq::<mir::SetMember>::empty() + rest =~= rest);
            },
            Err(_) => {},
        }
        assert(mv.take(0) =~= Seq::<MemberView>::empty());
    }
    let mut i: usize = 0;
    while i < members.len()
        invariant
            0 <= i <= members@.len(),
            mv == members_view(members@),
            mv.len() == members@.len(),
            forall|k: int| 0 <= k < members@.len() ==> mv[k] == members@[k]@,
            resolve_members(mv, *reg) == resolve_rest_glue(mv, i as int, out@, *reg),
        decreases members@.len() - i,
    {
        let ghost o0 = out@;
        let mut unknown: Option<&'a str> = None;
        match &members[i] {
            hir::SetMember::Character(c) => {
                out.push(mir::SetMember::Character(*c));
            },
            hir::SetMember::Category(name) => {
                match reg.lookup_builtin(name) {
                    Some(tag) => {
                        out.push(mir::SetMember::Category(tag));
                    },
                    None => {
                        match reg.lookup_category(name) {
                            Some(v) => {
                                let mut k: usize = 0;
                                while k < v.len()
                                    invariant
                                        0 <= k <= v@.len(),
                                        out@ == o0 + v@.take(k as int),
                                    decreases v@.len() - k,
                                {
                                    out.push(v[k]);
                                    proof {
                                        assert(out@ =~= o0 + v@.take(k + 1));
                                    }
                                    k = k + 1;
                                }
                                proof {
                                    assert(v@.take(v@.len() as int) =~= v@);
                                }
                            },
                            None => {
                                unknown = Some(name);
                            },
                        }
                    },
                }
            },
        }
        if let Some(name) = unknown {
            proof {
                assert(resolve_member(mv[i as int], *reg) == Err::<Seq<mir::SetMember>, Seq<char>>(
                    name@,
                ));
                lemma_resolve_members_step(mv, i as int, *reg);
                assert(resolve_members(mv.skip(i as int), *reg) == Err::<
                    Seq<mir::SetMember>,
                    Seq<char>,
                >(name@));
            }
            return Err(ResolutionError::UnknownCategory(name));
        }
        proof {
            lemma_resolve_members_step(mv, i as int, *reg);
            assert(resolve_member(mv[i as int], *reg) matches Ok(one) && out@ =~= o0 + one);
            match resolve_member(mv[i as int], *reg) {
                Ok(one) => {
                    match resolve_members(mv.skip(i + 1), *reg) {
                        Ok(rest) => {
                            assert((o0 + one) + rest =~= o0 + (one + rest));
                        },
                        Err(_) => {},
                    }
                },
                Err(_) => {},
            }
        }
        i = i + 1;
    }
    proof {
        assert(mv.skip(mv.len() as int) =~= Seq::<MemberView>::empty());
        assert(out@ + Seq::<mir::SetMember>::empty() =~= out@);
    }
    Ok(out)
}

/// What the resolution of the rest of a member list adds to an already
/// resolved prefix.
pub open spec fn resolve_rest_glue(
    mv: Seq<MemberView>,
    i: int,
    done: Seq<mir::SetMember>,
    reg: CategoryRegistry,
) -> Result<Seq<mir::SetMember>, Seq<char>> {
    match resolve_members(mv.skip(i), reg) {
        Ok(rest) => Ok(done + rest),
        Err(n) => Err(n),
    }
}

/// One resolution step peels one member off the remainder.
proof fn lemma_resolve_members_step(mv: Seq<MemberView>, i: int, reg: CategoryRegistry)
    requires
        0 <= i < mv.len(),
    ensures
        resolve_members(mv.skip(i), reg) == (match resolve_member(mv[i], reg) {
            Err(n) => Err::<Seq<mir::SetMember>, Seq<char>>(n),
            Ok(first) => match resolve_members(mv.skip(i + 1), reg) {
                Err(n) => Err::<Seq<mir::SetMember>, Seq<char>>(n),
                Ok(rest) => Ok::<Seq<mir::SetMember>, Seq<char>>(first + rest),
            },
        }),
        resolve_members(mv.take(i + 1), reg) == (match resolve_members(mv.take(i), reg) {
            Err(n) => Err::<Seq<mir::SetMember>, Seq<char>>(n),
            Ok(done) => match resolve_member(mv[i], reg) {
                Err(n) => Err::<Seq<mir::SetMember>, Seq<char>>(n),
                Ok(one) => Ok::<Seq<mir::SetMember>, Seq<char>>(done + one),
            },
        }),
{
    assert(mv.skip(i)[0] == mv[i]);
    assert(mv.skip(i).drop_first() =~= mv.skip(i + 1));
    lemma_resolve_members_take(mv, i, reg);
}

/// Resolving a one-longer prefix appends the next member's contribution.
proof fn lemma_resolve_members_take(mv: Seq<MemberView>, i: int, reg: CategoryRegistry)
    requires
        0 <= i < mv.len(),
    ensures
        resolve_members(mv.take(i + 1), reg) == (match resolve_members(mv.take(i), reg) {
            Err(n) => Err::<Seq<mir::SetMember>, Seq<char>>(n),
            Ok(done) => match resolve_member(mv[i], reg) {
                Err(n) => Err::<Seq<mir::SetMember>, Seq<char>>(n),
                Ok(one) => Ok::<Seq<mir::SetMember>, Seq<char>>(done + one),
            },
        }),
    decreases i,
{
    if i == 0 {
        assert(mv.take(0) =~= Seq::<MemberView>::empty());
        assert(mv.take(1)[0] == mv[0]);
        assert(mv.take(1).drop_first() =~= Seq::<MemberView>::empty());
        match resolve_member(mv[0], reg) {
            Ok(one) => {
                assert(Seq::<mir::SetMember>::empty() + one =~= one);
            },
            Err(_) => {},
        }
    } else {
        assert(mv.take(i + 1)[0] == mv[0]);
        assert(mv.take(i)[0] == mv[0]);
        assert(mv.take(i + 1).drop_first() =~= mv.drop_first().take(i));
        assert(mv.take(i).drop_first() =~= mv.drop_first().take(i - 1));
        assert(mv.drop_first()[i - 1] == mv[i]);
        lemma_resolve_members_take(mv.drop_first(), i - 1, reg);
        match resolve_members(mv.drop_first().take(i - 1), reg) {
            Ok(done1) => {
                match resolve_member(mv[0], reg) {
                    Ok(first) => {
                        match resolve_member(mv[i], reg) {
                            Ok(one) => {
                                assert(first + (done1 + one) =~= (first + done1) + one);
                            },
                            Err(_) => {},
                        }
                    },
                    Err(_) => {},
                }
            },
            Err(_) => {},
        }
    }
}


/// One list-resolution step peels one regex off the remainder.
proof fn lemma_resolve_views_step(hs: Seq<crate::parser::HirView>, i: int, reg: CategoryRegistry)
    requires
        0 <= i < hs.len(),
    ensures
        resolve_views(hs.skip(i), reg) == (match resolve_view(hs[i], reg) {
            Err(n) => Err::<Seq<crate::mir::MirView>, Seq<char>>(n),
            Ok(first) => match resolve_views(hs.skip(i + 1), reg) {
                Err(n) => Err::<Seq<crate::mir::MirView>, Seq<char>>(n),
                Ok(rest) => Ok::<Seq<crate::mir::MirView>, Seq<char>>(
                    Seq::empty().push(first) + rest,
                ),
            },
        }),
{
    assert(hs.skip(i)[0] == hs[i]);
    assert(hs.skip(i).drop_first() =~= hs.skip(i + 1));
}

/// Resolve every named reference of a regex against the registry,
/// producing the resolved tree, or the first unknown name.
pub fn hir_to_mir<'a>(h: &hir::HIR<'a>, reg: &CategoryRegistry<'a>) -> (r: Result<
    mir::MIR<'a>,
    ResolutionError<'a>,
>)
    ensures
        ({
            match resolve_view(h@, *reg) {
                Ok(v) => r matches Ok(m) && m@ == v,
                Err(n) => r matches Err(ResolutionError::UnknownCategory(u)) && u@ == n,
            }
        }),
    decreases *h,
{
    match h {
        hir::HIR::AnyChar => Ok(mir::MIR::Category(CharacterCategory::Any)),
        hir::HIR::Sequence(s) => Ok(mir::MIR::Sequence(s)),
        hir::HIR::SubRegex(name) => {
            match reg.lookup_builtin(name) {
                Some(tag) => Ok(mir::MIR::Category(tag)),
                None => {
                    match reg.lookup_category(name) {
                        Some(v) => Ok(mir::MIR::CharSet(mir::copy_members(v))),
                        None => Err(ResolutionError::UnknownCategory(name)),
                    }
                },
            }
        },
        hir::HIR::Repetition { regex, min, max } => {
            match hir_to_mir(regex, reg) {
                Ok(m) => Ok(mir::MIR::Repetition { regex: Box::new(m), min: *min, max: *max }),
                Err(e) => Err(e),
            }
        },
        hir::HIR::Alternation(rs) => {
            proof {
                assert(decreases_to!(*h => rs@));
            }
            match resolve_hir_list(rs, reg) {
                Ok(ms) => Ok(mir::MIR::Alternation(ms)),
                Err(e) => Err(e),
            }
        },
        hir::HIR::CharSet(ms) => {
            match resolve_member_list(ms, reg) {
                Ok(v) => Ok(mir::MIR::CharSet(v)),
                Err(e) => Err(e),
            }
        },
        hir::HIR::NegatedSet(ms) => {
            match resolve_member_list(ms, reg) {
                Ok(v) => Ok(mir::MIR::NegatedSet(v)),
                Err(e) => Err(e),
            }
        },
        hir::HIR::Concatenation(rs) => {
            proof {
                assert(decreases_to!(*h => rs@));
            }
            match resolve_hir_list(rs, reg) {
                Ok(ms) => Ok(mir::MIR::Concatenation(ms)),
                Err(e) => Err(e),
            }
        },
    }
}

/// Resolve each regex of a list against the registry.
fn resolve_hir_list<'a>(rs: &Vec<hir::HIR<'a>>, reg: &CategoryRegistry<'a>) -> (r: Result<
    Vec<mir::MIR<'a>>,
    ResolutionError<'a>,
>)
    ensures
        ({
            match resolve_views(crate::parser::hirs_view(rs@), *reg) {
                Ok(vs) => r matches Ok(out) && crate::mir::mirs_view(out@) == vs,
                Err(n) => r matches Err(ResolutionError::UnknownCategory(u)) && u@ == n,
            }
        }),
    decreases rs@,
{
    let ghost hv = crate::parser::hirs_view(rs@);
    proof {
        crate::parser::lemma_hirs_view(rs@);
        assert(hv.skip(0) =~= hv);
    }
    let mut out: Vec<mir::MIR<'a>> = Vec::new();
    proof {
        match resolve_views(hv, *reg) {
            Ok(rest) => {
                assert(Seq::<crate::mir::MirView>::empty() + rest =~= rest);
            },
            Err(_) => {},
        }
    }
    let mut i: usize = 0;
    while i < rs.len()
        invariant
            0 <= i <= rs@.len(),
            hv == crate::parser::hirs_view(rs@),
            hv.len() == rs@.len(),
            forall|k: int| 0 <= k < rs@.len() ==> hv[k] == rs@[k]@,
            resolve_views(hv, *reg) == (match resolve_views(hv.skip(i as int), *reg) {
                Ok(rest) => Ok::<Seq<crate::mir::MirView>, Seq<char>>(
                    crate::mir::mirs_view(out@) + rest,
                ),
                Err(n) => Err::<Seq<crate::mir::MirView>, Seq<char>>(n),
            }),
        decreases rs@.len() - i,
    {
        proof {
            assert(decreases_to!(rs@ => rs@[i as int]));
            lemma_resolve_views_step(hv, i as int, *reg);
        }
        let ghost o0 = out@;
        match hir_to_mir(&rs[i], reg) {
            Ok(m) => {
                out.push(m);
                proof {
                    crate::mir::lemma_mirs_view_push(o0, out@.last());
                    match resolve_view(hv[i as int], *reg) {
                        Ok(first) => {
                            match resolve_views(hv.skip(i + 1), *reg) {
                                Ok(rest) => {
                                    assert(crate::mir::mirs_view(o0) + (Seq::<
                                        crate::mir::MirView,
                                    >::empty().push(first) + rest) =~= crate::mir::mirs_view(out@)
                                        + rest);
                                },
                                Err(_) => {},
                            }
                        },
                        Err(_) => {},
                    }
                }
            },
            Err(e) => {
                return Err(e);
            },
        }
        i = i + 1;
    }
    proof {
        assert(hv.skip(hv.len() as int) =~= Seq::<crate::parser::HirView>::empty());
        assert(crate::mir::mirs_view(out@) + Seq::<crate::mir::MirView>::empty()
            =~= crate::mir::mirs_view(out@));
    }
    Ok(out)
}

} // verus!
