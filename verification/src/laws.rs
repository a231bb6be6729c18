//! Library-wide laws, stated over the same spec functions the lowering
//! contracts use and proved once for every input.

use vstd::prelude::*;
use crate::ast::FieldDef;
use crate::ast::TypeDef;
use crate::config::Field;
use crate::config::Type;
use crate::config::Union;
use crate::lower::field_matches;
use crate::lower::field_ok;
use crate::lower::is_union;
use crate::lower::non_union_names;
use crate::lower::types_table_matches;
use crate::lower::union_names;
use crate::lower::unions_table_matches;
use crate::namemap::NameMap;
use crate::text::lex_lt;

verus! {

/// Totality of the type table: a table lowered from a list of definitions
/// holds exactly one entry per non-union name — as many entries as there are
/// distinct such names — and hands its keys out in strictly sorted order,
/// whatever order the definitions came in.
pub proof fn lemma_type_table_total(s: Seq<TypeDef>, m: NameMap<Type>)
    requires
        types_table_matches(s, m),
    ensures
        m@.dom() =~= non_union_names(s).to_set(),
        m.key_list().to_set() =~= non_union_names(s).to_set(),
        forall|i: int, j: int|
            0 <= i < j < m.key_list().len() ==> lex_lt(
                #[trigger] m.key_list()[i],
                #[trigger] m.key_list()[j],
            ),
        m.key_list().no_duplicates(),
        m.key_list().len() == non_union_names(s).to_set().len(),
{
    m.lemma_sorted();
    m.key_list().unique_seq_to_set();
}

/// Membership in the non-union name list means a non-union definition bears
/// the name.
proof fn lemma_non_union_names_membership(s: Seq<TypeDef>)
    ensures
        forall|n: Seq<char>|
            #[trigger] non_union_names(s).to_set().contains(n) <==> exists|i: int|
                0 <= i < s.len() && !is_union(#[trigger] s[i]) && s[i].name@ == n,
    decreases s.len(),
{
    if s.len() > 0 {
        lemma_non_union_names_membership(s.drop_last());
        assert forall|n: Seq<char>|
            #[trigger] non_union_names(s).to_set().contains(n) <==> exists|i: int|
                0 <= i < s.len() && !is_union(#[trigger] s[i]) && s[i].name@ == n by {
            if is_union(s.last()) {
                assert(non_union_names(s) == non_union_names(s.drop_last()));
                if exists|i: int| 0 <= i < s.len() && !is_union(#[trigger] s[i]) && s[i].name@
                    == n {
                    let i = choose|i: int|
                        0 <= i < s.len() && !is_union(#[trigger] s[i]) && s[i].name@ == n;
                    assert(i < s.len() - 1);
                    assert(s.drop_last()[i] == s[i]);
                }
                if non_union_names(s.drop_last()).to_set().contains(n) {
                    let i = choose|i: int|
                        0 <= i < s.drop_last().len() && !is_union(#[trigger] s.drop_last()[i])
                            && s.drop_last()[i].name@ == n;
                    assert(s[i] == s.drop_last()[i]);
                }
            } else {
                let t = non_union_names(s);
                assert(t == non_union_names(s.drop_last()).push(s.last().name@));
                assert(t.drop_last() =~= non_union_names(s.drop_last()));
                if t.to_set().contains(n) {
                    let j = choose|j: int| 0 <= j < t.len() && #[trigger] t[j] == n;
                    if j < t.len() - 1 {
                        assert(non_union_names(s.drop_last())[j] == n);
                        assert(non_union_names(s.drop_last()).to_set().contains(n));
                        let i = choose|i: int|
                            0 <= i < s.drop_last().len() && !is_union(#[trigger] s.drop_last()[i])
                                && s.drop_last()[i].name@ == n;
                        assert(s[i] == s.drop_last()[i]);
                        assert(!is_union(s[i]) && s[i].name@ == n);
                    } else {
                        assert(s[s.len() - 1].name@ == n && !is_union(s[s.len() - 1]));
                    }
                }
                if exists|i: int| 0 <= i < s.len() && !is_union(#[trigger] s[i]) && s[i].name@
                    == n {
                    let i = choose|i: int|
                        0 <= i < s.len() && !is_union(#[trigger] s[i]) && s[i].name@ == n;
                    if i < s.len() - 1 {
                        assert(s.drop_last()[i] == s[i]);
                        assert(non_union_names(s.drop_last()).to_set().contains(n));
                        let j = choose|j: int|
                            0 <= j < non_union_names(s.drop_last()).len() && #[trigger] non_union_names(
                                s.drop_last(),
                            )[j] == n;
                        assert(t[j] == n);
                        assert(t.to_set().contains(n));
                    } else {
                        assert(t[t.len() - 1] == n);
                        assert(t.to_set().contains(n));
                    }
                }
            }
        }
    }
}

/// Membership in the union name list means a union definition bears the name.
proof fn lemma_union_names_membership(s: Seq<TypeDef>)
    ensures
        forall|n: Seq<char>|
            #[trigger] union_names(s).to_set().contains(n) <==> exists|i: int|
                0 <= i < s.len() && is_union(#[trigger] s[i]) && s[i].name@ == n,
    decreases s.len(),
{
    if s.len() > 0 {
        lemma_union_names_membership(s.drop_last());
        assert forall|n: Seq<char>|
            #[trigger] union_names(s).to_set().contains(n) <==> exists|i: int|
                0 <= i < s.len() && is_union(#[trigger] s[i]) && s[i].name@ == n by {
            if !is_union(s.last()) {
                assert(union_names(s) == union_names(s.drop_last()));
                if exists|i: int| 0 <= i < s.len() && is_union(#[trigger] s[i]) && s[i].name@
                    == n {
                    let i = choose|i: int|
                        0 <= i < s.len() && is_union(#[trigger] s[i]) && s[i].name@ == n;
                    assert(i < s.len() - 1);
                    assert(s.drop_last()[i] == s[i]);
                }
                if union_names(s.drop_last()).to_set().contains(n) {
                    let i = choose|i: int|
                        0 <= i < s.drop_last().len() && is_union(#[trigger] s.drop_last()[i])
                            && s.drop_last()[i].name@ == n;
                    assert(s[i] == s.drop_last()[i]);
                }
            } else {
                let t = union_names(s);
                assert(t == union_names(s.drop_last()).push(s.last().name@));
                assert(t.drop_last() =~= union_names(s.drop_last()));
                if t.to_set().contains(n) {
                    let j = choose|j: int| 0 <= j < t.len() && #[trigger] t[j] == n;
                    if j < t.len() - 1 {
                        assert(union_names(s.drop_last())[j] == n);
                        assert(union_names(s.drop_last()).to_set().contains(n));
                        let i = choose|i: int|
                            0 <= i < s.drop_last().len() && is_union(#[trigger] s.drop_last()[i])
                                && s.drop_last()[i].name@ == n;
                        assert(s[i] == s.drop_last()[i]);
                    } else {
                        assert(s[s.len() - 1].name@ == n && is_union(s[s.len() - 1]));
                    }
                }
                if exists|i: int| 0 <= i < s.len() && is_union(#[trigger] s[i]) && s[i].name@
                    == n {
                    let i = choose|i: int|
                        0 <= i < s.len() && is_union(#[trigger] s[i]) && s[i].name@ == n;
                    if i < s.len() - 1 {
                        assert(s.drop_last()[i] == s[i]);
                        assert(union_names(s.drop_last()).to_set().contains(n));
                        let j = choose|j: int|
                            0 <= j < union_names(s.drop_last()).len() && #[trigger] union_names(
                                s.drop_last(),
                            )[j] == n;
                        assert(t[j] == n);
                        assert(t.to_set().contains(n));
                    } else {
                        assert(t[t.len() - 1] == n);
                        assert(t.to_set().contains(n));
                    }
                }
            }
        }
    }
}

/// Union separation: lowered from one list of definitions in which no name
/// is defined both as a union and as something else, the type table and the
/// union table share no name — a union never lands in the type table, nor
/// the reverse.
pub proof fn lemma_union_separation(s: Seq<TypeDef>, tm: NameMap<Type>, um: NameMap<Union>)
    requires
        types_table_matches(s, tm),
        unions_table_matches(s, um),
        forall|i: int, j: int|
            0 <= i < s.len() && 0 <= j < s.len() && is_union(#[trigger] s[i]) && !is_union(
                #[trigger] s[j],
            ) ==> s[i].name@ != s[j].name@,
    ensures
        tm@.dom().intersect(um@.dom()) =~= Set::<Seq<char>>::empty(),
{
    lemma_non_union_names_membership(s);
    lemma_union_names_membership(s);
    assert forall|n: Seq<char>| !(#[trigger] tm@.dom().intersect(um@.dom()).contains(n)) by {
        if tm@.dom().contains(n) && um@.dom().contains(n) {
            assert(non_union_names(s).to_set().contains(n));
            assert(union_names(s).to_set().contains(n));
            let j = choose|j: int|
                0 <= j < s.len() && !is_union(#[trigger] s[j]) && s[j].name@ == n;
            let i = choose|i: int| 0 <= i < s.len() && is_union(#[trigger] s[i]) && s[i].name@ == n;
            assert(false);
        }
    }
}

/// Directive absence is non-fatal: a field definition without directives
/// always lowers, provided its arguments do.
pub proof fn lemma_directive_absence_ok(fd: FieldDef)
    requires
        fd.directives@.len() == 0,
        crate::lower::args_ok(fd.arguments@),
    ensures
        field_ok(fd),
{
}

/// Directive absence leaves every directive-derived behaviour absent: a
/// field lowered from a definition without directives has none of them set.
pub proof fn lemma_directive_absence_all_absent(fd: FieldDef, f: Field)
    requires
        fd.directives@.len() == 0,
        field_matches(fd, f),
    ensures
        f.modify is None,
        f.inline is None,
        f.http is None,
        f.unsafe_operation is None,
        f.group_by is None,
        f.const_field is None,
{
}

} // verus!
