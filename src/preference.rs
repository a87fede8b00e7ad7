//! The order in which driver options are preferred: by priority, then field
//! by field as the records compare, with tags compared as a sorted set.

use vstd::prelude::*;
use vstd::string::StrSliceExecFns;
use crate::catalog::{views, DriverOption, Script, ScriptKind};

verus! {

/// Whether `a` comes before `b` in character order: at the first position
/// where they differ the character of `a` is smaller, or `a` is a proper
/// prefix of `b`. On strings this is the order of their UTF-8 bytes.
pub open spec fn chars_less(a: Seq<char>, b: Seq<char>) -> bool
    decreases a.len(),
{
    if a.len() == 0 {
        b.len() > 0
    } else if b.len() == 0 {
        false
    } else if a[0] != b[0] {
        (a[0] as u32) < (b[0] as u32)
    } else {
        chars_less(a.drop_first(), b.drop_first())
    }
}

/// No text comes before itself.
pub proof fn lemma_chars_less_irreflexive(a: Seq<char>)
    ensures
        !chars_less(a, a),
    decreases a.len(),
{
    if a.len() > 0 {
        lemma_chars_less_irreflexive(a.drop_first());
    }
}

/// Character order is transitive.
pub proof fn lemma_chars_less_transitive(a: Seq<char>, b: Seq<char>, c: Seq<char>)
    requires
        chars_less(a, b),
        chars_less(b, c),
    ensures
        chars_less(a, c),
    decreases a.len(),
{
    if a.len() > 0 && b.len() > 0 && c.len() > 0 && a[0] == b[0] && b[0] == c[0] {
        lemma_chars_less_transitive(a.drop_first(), b.drop_first(), c.drop_first());
    }
}

/// Of two different texts, one comes before the other, and never both.
pub proof fn lemma_chars_less_total(a: Seq<char>, b: Seq<char>)
    ensures
        a != b ==> (chars_less(a, b) || chars_less(b, a)),
        !(chars_less(a, b) && chars_less(b, a)),
    decreases a.len(),
{
    if a.len() > 0 && b.len() > 0 && a[0] == b[0] {
        lemma_chars_less_total(a.drop_first(), b.drop_first());
        if a.drop_first() == b.drop_first() {
            assert forall|i: int| 0 <= i < a.len() implies a[i] == b[i] by {
                if i > 0 {
                    assert(a[i] == a.drop_first()[i - 1]);
                    assert(b[i] == b.drop_first()[i - 1]);
                }
            }
            assert(a =~= b);
        }
    } else if a.len() == 0 && b.len() == 0 {
        assert(a =~= b);
    } else if a.len() > 0 && b.len() > 0 {
        vstd::utf8::char_u32_cast(a[0], a[0] as u32);
        vstd::utf8::char_u32_cast(b[0], b[0] as u32);
    }
}

/// Whether `a` comes before `b` in character order.
pub fn str_less(a: &str, b: &str) -> (r: bool)
    ensures
        r == chars_less(a@, b@),
{
    let na = a.unicode_len();
    let nb = b.unicode_len();
    let mut i: usize = 0;
    assert(a@.skip(0) =~= a@ && b@.skip(0) =~= b@);
    while i < na && i < nb
        invariant
            na == a@.len(),
            nb == b@.len(),
            i <= na,
            i <= nb,
            chars_less(a@, b@) == chars_less(a@.skip(i as int), b@.skip(i as int)),
        decreases na - i,
    {
        let ca = a.get_char(i);
        let cb = b.get_char(i);
        assert(a@.skip(i as int)[0] == ca && b@.skip(i as int)[0] == cb);
        if ca != cb {
            return (ca as u32) < (cb as u32);
        }
        assert(a@.skip(i as int).drop_first() =~= a@.skip(i as int + 1));
        assert(b@.skip(i as int).drop_first() =~= b@.skip(i as int + 1));
        i = i + 1;
    }
    i < nb
}

/// Whether the sequence of texts `a` comes before `b`: at the first position
/// where they differ the text of `a` comes first, or `a` is a proper prefix
/// of `b`.
pub open spec fn texts_less(a: Seq<Seq<char>>, b: Seq<Seq<char>>) -> bool
    decreases a.len(),
{
    if a.len() == 0 {
        b.len() > 0
    } else if b.len() == 0 {
        false
    } else if a[0] != b[0] {
        chars_less(a[0], b[0])
    } else {
        texts_less(a.drop_first(), b.drop_first())
    }
}

/// Whether the sequence of strings `a` comes before `b`.
pub fn strings_less(a: &Vec<String>, b: &Vec<String>) -> (r: bool)
    ensures
        r == texts_less(views(a@), views(b@)),
{
    let ghost va = views(a@);
    let ghost vb = views(b@);
    let mut i: usize = 0;
    assert(va.skip(0) =~= va && vb.skip(0) =~= vb);
    while i < a.len() && i < b.len()
        invariant
            va == views(a@),
            vb == views(b@),
            i <= a@.len(),
            i <= b@.len(),
            texts_less(va, vb) == texts_less(va.skip(i as int), vb.skip(i as int)),
        decreases a.len() - i,
    {
        assert(va.skip(i as int)[0] == a@[i as int]@ && vb.skip(i as int)[0] == b@[i as int]@);
        if a[i] != b[i] {
            return str_less(a[i].as_str(), b[i].as_str());
        }
        assert(va.skip(i as int).drop_first() =~= va.skip(i as int + 1));
        assert(vb.skip(i as int).drop_first() =~= vb.skip(i as int + 1));
        i = i + 1;
    }
    i < b.len()
}

/// Whether the two sequences of strings hold the same texts.
pub fn strings_equal(a: &Vec<String>, b: &Vec<String>) -> (r: bool)
    ensures
        r == (views(a@) == views(b@)),
{
    if a.len() != b.len() {
        assert(views(a@).len() != views(b@).len());
        return false;
    }
    let mut i: usize = 0;
    while i < a.len()
        invariant
            a@.len() == b@.len(),
            i <= a@.len(),
            forall|j: int| 0 <= j < i ==> a@[j]@ == b@[j]@,
        decreases a.len() - i,
    {
        if a[i] != b[i] {
            assert(views(a@)[i as int] != views(b@)[i as int]);
            return false;
        }
        i = i + 1;
    }
    assert(views(a@) =~= views(b@));
    true
}

/// Whether the texts are in strictly increasing character order.
pub open spec fn sorted_distinct(q: Seq<Seq<char>>) -> bool {
    forall|i: int, j: int| 0 <= i < j < q.len() ==> chars_less(#[trigger] q[i], #[trigger] q[j])
}

/// Two strictly increasing sequences that hold the same texts are equal.
pub proof fn lemma_sorted_unique(q1: Seq<Seq<char>>, q2: Seq<Seq<char>>)
    requires
        sorted_distinct(q1),
        sorted_distinct(q2),
        forall|s: Seq<char>| q1.contains(s) <==> q2.contains(s),
    ensures
        q1 == q2,
    decreases q1.len(),
{
    if q1.len() == 0 {
        if q2.len() > 0 {
            assert(q2.contains(q2[0]));
        }
        assert(q1 =~= q2);
    } else {
        assert(q1.contains(q1[0]));
        assert(q2.len() > 0);
        assert(q2.contains(q2[0]));
        let k = choose|k: int| 0 <= k < q2.len() && #[trigger] q2[k] == q1[0];
        let m = choose|m: int| 0 <= m < q1.len() && #[trigger] q1[m] == q2[0];
        if k > 0 {
            assert(chars_less(q2[0], q2[k]));
            if m == 0 {
                lemma_chars_less_irreflexive(q2[0]);
            } else {
                assert(chars_less(q1[0], q1[m]));
                lemma_chars_less_total(q2[0], q1[0]);
            }
        }
        assert(q1[0] == q2[0]);
        let r1 = q1.drop_first();
        let r2 = q2.drop_first();
        assert forall|s: Seq<char>| r1.contains(s) <==> r2.contains(s) by {
            if r1.contains(s) {
                let j = choose|j: int| 0 <= j < r1.len() && #[trigger] r1[j] == s;
                assert(q1[j + 1] == s);
                assert(chars_less(q1[0], q1[j + 1]));
                lemma_chars_less_irreflexive(s);
                assert(q2.contains(s));
                let t = choose|t: int| 0 <= t < q2.len() && #[trigger] q2[t] == s;
                assert(t != 0);
                assert(r2[t - 1] == s);
            }
            if r2.contains(s) {
                let j = choose|j: int| 0 <= j < r2.len() && #[trigger] r2[j] == s;
                assert(q2[j + 1] == s);
                assert(chars_less(q2[0], q2[j + 1]));
                lemma_chars_less_irreflexive(s);
                assert(q1.contains(s));
                let t = choose|t: int| 0 <= t < q1.len() && #[trigger] q1[t] == s;
                assert(t != 0);
                assert(r1[t - 1] == s);
            }
        }
        assert(sorted_distinct(r1)) by {
            assert forall|i: int, j: int| 0 <= i < j < r1.len() implies chars_less(#[trigger] r1[i], #[trigger] r1[j]) by {
                assert(r1[i] == q1[i + 1] && r1[j] == q1[j + 1]);
            }
        }
        assert(sorted_distinct(r2)) by {
            assert forall|i: int, j: int| 0 <= i < j < r2.len() implies chars_less(#[trigger] r2[i], #[trigger] r2[j]) by {
                assert(r2[i] == q2[i + 1] && r2[j] == q2[j + 1]);
            }
        }
        lemma_sorted_unique(r1, r2);
        assert forall|i: int| 0 <= i < q1.len() implies q1[i] == q2[i] by {
            if i > 0 {
                assert(q1[i] == r1[i - 1]);
                assert(q2[i] == r2[i - 1]);
            }
        }
        assert(q1 =~= q2);
    }
}

/// The tags of an option as a set: its distinct tags in increasing character
/// order.
pub open spec fn tag_sequence(o: DriverOption) -> Seq<Seq<char>> {
    choose|q: Seq<Seq<char>>|
        sorted_distinct(q) && forall|s: Seq<char>| q.contains(s) <==> views(o.tags@).contains(s)
}

/// The distinct texts of `tags` in increasing character order.
pub fn sorted_tags(tags: &Vec<String>) -> (r: Vec<String>)
    ensures
        sorted_distinct(views(r@)),
        forall|s: Seq<char>| views(r@).contains(s) <==> views(tags@).contains(s),
{
    let mut out: Vec<String> = Vec::new();
    let mut j: usize = 0;
    while j < tags.len()
        invariant
            j <= tags@.len(),
            sorted_distinct(views(out@)),
            forall|s: Seq<char>| views(out@).contains(s) <==> views(tags@.take(j as int)).contains(s),
        decreases tags.len() - j,
    {
        let t = &tags[j];
        let ghost x = t@;
        let ghost before = views(out@);
        let ghost pre = views(tags@.take(j as int));
        let ghost next = views(tags@.take(j as int + 1));
        let mut i: usize = 0;
        let mut going = true;
        while going && i < out.len()
            invariant
                i <= out@.len(),
                before == views(out@),
                x == t@,
                forall|k: int| 0 <= k < i ==> chars_less(#[trigger] before[k], x),
                !going ==> (i < out@.len() && !chars_less(before[i as int], x)),
            decreases (out@.len() - i) * 2 + if going { 1int } else { 0int },
        {
            assert(before[i as int] == out@[i as int]@);
            if str_less(out[i].as_str(), t.as_str()) {
                i = i + 1;
            } else {
                going = false;
            }
        }
        proof {
            assert(next =~= pre.push(x));
        }
        if i < out.len() && out[i] == *t {
            proof {
                assert forall|s: Seq<char>| views(out@).contains(s) <==> next.contains(s) by {
                    if s == x {
                        assert(views(out@)[i as int] == x);
                    }
                    if pre.contains(s) {
                        assert(next == pre.push(x));
                        let w = choose|w: int| 0 <= w < pre.len() && #[trigger] pre[w] == s;
                        assert(next[w] == s);
                    }
                    if next.contains(s) && s != x {
                        let w = choose|w: int| 0 <= w < next.len() && #[trigger] next[w] == s;
                        assert(pre[w] == s);
                    }
                }
            }
        } else {
            proof {
                if i < before.len() {
                    lemma_chars_less_total(before[i as int], x);
                    assert(chars_less(x, before[i as int]));
                    assert forall|k: int| i < k < before.len() implies chars_less(x, #[trigger] before[k]) by {
                        lemma_chars_less_transitive(x, before[i as int], before[k]);
                    }
                }
            }
            out.insert(i, t.clone());
            proof {
                let now = views(out@);
                assert(now =~= before.insert(i as int, x));
                assert forall|a: int, b: int| 0 <= a < b < now.len() implies chars_less(#[trigger] now[a], #[trigger] now[b]) by {
                    if b < i {
                    } else if b == i {
                    } else if a < i {
                        assert(now[b] == before[b - 1]);
                        if b - 1 == i {
                        } else {
                            lemma_chars_less_transitive(now[a], x, now[b]);
                        }
                    } else if a == i {
                        assert(now[b] == before[b - 1]);
                    } else {
                        assert(now[a] == before[a - 1] && now[b] == before[b - 1]);
                    }
                }
                assert forall|s: Seq<char>| now.contains(s) <==> next.contains(s) by {
                    if now.contains(s) {
                        let w = choose|w: int| 0 <= w < now.len() && #[trigger] now[w] == s;
                        if w < i {
                            assert(before[w] == s);
                        } else if w > i {
                            assert(before[w - 1] == s);
                        }
                        if s != x {
                            assert(before.contains(s));
                            let v = choose|v: int| 0 <= v < pre.len() && #[trigger] pre[v] == s;
                            assert(next[v] == s);
                        } else {
                            assert(next[j as int] == x);
                        }
                    }
                    if next.contains(s) {
                        if s == x {
                            assert(now[i as int] == x);
                        } else {
                            let v = choose|v: int| 0 <= v < next.len() && #[trigger] next[v] == s;
                            assert(pre[v] == s);
                            assert(before.contains(s));
                            let w = choose|w: int| 0 <= w < before.len() && #[trigger] before[w] == s;
                            if w < i {
                                assert(now[w] == s);
                            } else {
                                assert(now[w + 1] == s);
                            }
                        }
                    }
                }
            }
        }
        j = j + 1;
    }
    assert(tags@.take(tags@.len() as int) =~= tags@);
    out
}

/// Rank of a script language in the order Python, JavaScript, Shell.
pub open spec fn script_kind_rank(k: ScriptKind) -> int {
    match k {
        ScriptKind::Python => 0,
        ScriptKind::JavaScript => 1,
        ScriptKind::Shell => 2,
    }
}

/// Whether the path `a` comes before the path `b` as `std::path::Path`
/// orders paths, component by component.
pub uninterp spec fn path_less_of(a: Seq<char>, b: Seq<char>) -> bool;

/// Relies on `<std::path::Path as PartialOrd>::lt`: whether the first path
/// comes before the second depends on the two texts alone.
#[verifier::external_body]
fn path_less(a: &str, b: &str) -> (r: bool)
    ensures
        r == path_less_of(a@, b@),
{
    std::path::Path::new(a) < std::path::Path::new(b)
}

/// Whether script `a` comes before script `b`: by path, then by language.
pub open spec fn script_less(a: Script, b: Script) -> bool {
    path_less_of(a.path@, b.path@) || (!path_less_of(b.path@, a.path@) && script_kind_rank(a.language)
        < script_kind_rank(b.language))
}

/// Whether neither script comes before the other.
pub open spec fn script_same(a: Script, b: Script) -> bool {
    !path_less_of(a.path@, b.path@) && !path_less_of(b.path@, a.path@) && a.language == b.language
}

/// Whether the optional script `a` comes before `b`: no script comes first.
pub open spec fn optional_script_less(a: Option<Script>, b: Option<Script>) -> bool {
    match (a, b) {
        (None, Some(_)) => true,
        (Some(x), Some(y)) => script_less(x, y),
        _ => false,
    }
}

/// Whether neither optional script comes before the other.
pub open spec fn optional_script_same(a: Option<Script>, b: Option<Script>) -> bool {
    match (a, b) {
        (None, None) => true,
        (Some(x), Some(y)) => script_same(x, y),
        _ => false,
    }
}

fn script_rank(k: ScriptKind) -> (r: u8)
    ensures
        r as int == script_kind_rank(k),
{
    match k {
        ScriptKind::Python => 0,
        ScriptKind::JavaScript => 1,
        ScriptKind::Shell => 2,
    }
}

/// Compares two optional scripts: `(before, same)`.
fn compare_scripts(a: &Option<Script>, b: &Option<Script>) -> (r: (bool, bool))
    ensures
        r.0 == optional_script_less(*a, *b),
        r.1 == optional_script_same(*a, *b),
{
    match (a, b) {
        (None, None) => (false, true),
        (None, Some(_)) => (true, false),
        (Some(_), None) => (false, false),
        (Some(x), Some(y)) => {
            let ab = path_less(x.path.as_str(), y.path.as_str());
            let ba = path_less(y.path.as_str(), x.path.as_str());
            let rx = script_rank(x.language);
            let ry = script_rank(y.language);
            (ab || (!ba && rx < ry), !ab && !ba && rx == ry)
        },
    }
}

/// Whether option `a` is preferred to option `b`, field by field: a smaller
/// `order_of_priority`, then the name, the description, the tags as a sorted
/// set, the pre-install script, the packages and the post-install script.
pub open spec fn option_precedes(a: DriverOption, b: DriverOption) -> bool {
    if a.order_of_priority != b.order_of_priority {
        a.order_of_priority < b.order_of_priority
    } else if a.name@ != b.name@ {
        chars_less(a.name@, b.name@)
    } else if a.description@ != b.description@ {
        chars_less(a.description@, b.description@)
    } else if tag_sequence(a) != tag_sequence(b) {
        texts_less(tag_sequence(a), tag_sequence(b))
    } else if !optional_script_same(a.pre_install, b.pre_install) {
        optional_script_less(a.pre_install, b.pre_install)
    } else if views(a.packages@) != views(b.packages@) {
        texts_less(views(a.packages@), views(b.packages@))
    } else {
        optional_script_less(a.post_install, b.post_install)
    }
}

/// The sorted tags of `o`, which are its tag sequence.
fn tag_sequence_of(o: &DriverOption) -> (r: Vec<String>)
    ensures
        views(r@) == tag_sequence(*o),
{
    let r = sorted_tags(&o.tags);
    proof {
        let q = tag_sequence(*o);
        assert(sorted_distinct(q) && forall|s: Seq<char>| q.contains(s) <==> views(o.tags@).contains(s));
        lemma_sorted_unique(views(r@), q);
    }
    r
}

/// Whether option `a` is preferred to option `b`.
pub fn precedes(a: &DriverOption, b: &DriverOption) -> (r: bool)
    ensures
        r == option_precedes(*a, *b),
{
    if a.order_of_priority != b.order_of_priority {
        return a.order_of_priority < b.order_of_priority;
    }
    if a.name != b.name {
        return str_less(a.name.as_str(), b.name.as_str());
    }
    if a.description != b.description {
        return str_less(a.description.as_str(), b.description.as_str());
    }
    let ta = tag_sequence_of(a);
    let tb = tag_sequence_of(b);
    if !strings_equal(&ta, &tb) {
        return strings_less(&ta, &tb);
    }
    let (pre_before, pre_same) = compare_scripts(&a.pre_install, &b.pre_install);
    if !pre_same {
        return pre_before;
    }
    if !strings_equal(&a.packages, &b.packages) {
        return strings_less(&a.packages, &b.packages);
    }
    let (post_before, _) = compare_scripts(&a.post_install, &b.post_install);
    post_before
}

/// Sequence-of-texts order is irreflexive, asymmetric and transitive, and
/// orders any two different sequences.
pub proof fn lemma_texts_less_order(a: Seq<Seq<char>>, b: Seq<Seq<char>>, c: Seq<Seq<char>>)
    ensures
        !texts_less(a, a),
        !(texts_less(a, b) && texts_less(b, a)),
        texts_less(a, b) && texts_less(b, c) ==> texts_less(a, c),
    decreases a.len(),
{
    if a.len() > 0 {
        lemma_chars_less_irreflexive(a[0]);
        if b.len() > 0 {
            lemma_chars_less_total(a[0], b[0]);
            if c.len() > 0 {
                if texts_less(a, b) && texts_less(b, c) && a[0] != b[0] && b[0] != c[0] {
                    lemma_chars_less_transitive(a[0], b[0], c[0]);
                    lemma_chars_less_total(a[0], c[0]);
                }
            }
        }
        lemma_texts_less_order(a.drop_first(), b.drop_first(), c.drop_first());
        if b.len() > 0 && c.len() > 0 && a[0] == b[0] && b[0] == c[0] {
        } else if b.len() > 0 && c.len() > 0 && a[0] == b[0] && b[0] != c[0] {
        } else if b.len() > 0 && c.len() > 0 && a[0] != b[0] && b[0] == c[0] {
        }
    }
}

/// Whether the path order is a strict weak order: irreflexive, transitive,
/// and with incomparability transitive (as a total order on paths is).
pub open spec fn path_order_is_weak() -> bool {
    &&& forall|a: Seq<char>| !path_less_of(a, a)
    &&& forall|a: Seq<char>, b: Seq<char>, c: Seq<char>|
        #[trigger] path_less_of(a, b) && #[trigger] path_less_of(b, c) ==> path_less_of(a, c)
    &&& forall|a: Seq<char>, b: Seq<char>, c: Seq<char>|
        #![trigger path_less_of(a, b), path_less_of(b, c)]
        (!path_less_of(a, b) && !path_less_of(b, a) && !path_less_of(b, c) && !path_less_of(c, b))
            ==> (!path_less_of(a, c) && !path_less_of(c, a))
}

/// The order of optional scripts, with `optional_script_same` as its
/// equivalence, when paths are weakly ordered.
pub proof fn lemma_script_order(a: Option<Script>, b: Option<Script>, c: Option<Script>)
    requires
        path_order_is_weak(),
    ensures
        optional_script_same(a, a),
        optional_script_same(a, b) ==> optional_script_same(b, a),
        optional_script_same(a, b) && optional_script_same(b, c) ==> optional_script_same(a, c),
        !optional_script_less(a, a),
        optional_script_less(a, b) ==> !optional_script_same(a, b),
        optional_script_less(a, b) ==> !optional_script_less(b, a),
        optional_script_less(a, b) && optional_script_less(b, c) ==> optional_script_less(a, c),
        optional_script_same(a, b) && optional_script_less(b, c) ==> optional_script_less(a, c),
        optional_script_less(a, b) && optional_script_same(b, c) ==> optional_script_less(a, c),
{
    match (a, b, c) {
        (Some(x), Some(y), Some(z)) => {
            assert(!path_less_of(x.path@, x.path@));
            assert(!path_less_of(y.path@, y.path@));
            if path_less_of(x.path@, y.path@) && path_less_of(y.path@, z.path@) {
                assert(path_less_of(x.path@, z.path@));
            }
            if path_less_of(x.path@, y.path@) && path_less_of(y.path@, x.path@) {
                assert(path_less_of(x.path@, x.path@));
            }
            if path_less_of(x.path@, y.path@) && !path_less_of(y.path@, z.path@) && !path_less_of(z.path@, y.path@) {
                if !path_less_of(x.path@, z.path@) {
                    if path_less_of(z.path@, x.path@) {
                        assert(path_less_of(z.path@, y.path@));
                    } else {
                        assert(!path_less_of(x.path@, y.path@));
                    }
                }
            }
            if !path_less_of(x.path@, y.path@) && !path_less_of(y.path@, x.path@) && path_less_of(y.path@, z.path@) {
                if !path_less_of(x.path@, z.path@) {
                    if path_less_of(z.path@, x.path@) {
                        assert(path_less_of(y.path@, x.path@));
                    } else {
                        assert(!path_less_of(y.path@, z.path@));
                    }
                }
            }
            if !path_less_of(x.path@, y.path@) && !path_less_of(y.path@, x.path@) && !path_less_of(y.path@, z.path@)
                && !path_less_of(z.path@, y.path@) {
                assert(!path_less_of(x.path@, z.path@) && !path_less_of(z.path@, x.path@));
            }
        },
        (Some(x), Some(y), _) => {
            assert(!path_less_of(x.path@, x.path@));
            if path_less_of(x.path@, y.path@) && path_less_of(y.path@, x.path@) {
                assert(path_less_of(x.path@, x.path@));
            }
        },
        (Some(x), _, _) => {
            assert(!path_less_of(x.path@, x.path@));
        },
        _ => {},
    }
}

/// Preference between options is transitive and irreflexive, when paths are
/// weakly ordered.
pub proof fn lemma_option_precedes_order(a: DriverOption, b: DriverOption, c: DriverOption)
    requires
        path_order_is_weak(),
    ensures
        !option_precedes(a, a),
        option_precedes(a, b) && option_precedes(b, c) ==> option_precedes(a, c),
{
    lemma_chars_less_irreflexive(a.name@);
    lemma_chars_less_irreflexive(a.description@);
    lemma_chars_less_total(a.name@, b.name@);
    lemma_chars_less_total(b.name@, c.name@);
    lemma_chars_less_total(a.name@, c.name@);
    lemma_chars_less_total(a.description@, b.description@);
    lemma_chars_less_total(b.description@, c.description@);
    lemma_chars_less_total(a.description@, c.description@);
    if chars_less(a.name@, b.name@) && chars_less(b.name@, c.name@) {
        lemma_chars_less_transitive(a.name@, b.name@, c.name@);
    }
    if chars_less(a.description@, b.description@) && chars_less(b.description@, c.description@) {
        lemma_chars_less_transitive(a.description@, b.description@, c.description@);
    }
    lemma_texts_less_order(tag_sequence(a), tag_sequence(b), tag_sequence(c));
    lemma_texts_less_order(tag_sequence(b), tag_sequence(c), tag_sequence(a));
    lemma_texts_less_order(tag_sequence(a), tag_sequence(c), tag_sequence(b));
    lemma_texts_less_order(views(a.packages@), views(b.packages@), views(c.packages@));
    lemma_texts_less_order(views(b.packages@), views(c.packages@), views(a.packages@));
    lemma_texts_less_order(views(a.packages@), views(c.packages@), views(b.packages@));
    lemma_script_order(a.pre_install, b.pre_install, c.pre_install);
    lemma_script_order(a.post_install, b.post_install, c.post_install);
}

} // verus!
