//! Deterministic forest rendering: a flat set of parent-referenced records
//! becomes one prefixed display line per record, in depth-first pre-order
//! with roots and siblings ordered ascending by id, independent of the
//! input order.

use vstd::prelude::*;
use vstd::relations::{sorted_by, total_ordering};
use vstd::seq_lib::lemma_sorted_unique;

verus! {

broadcast use vstd::seq_lib::group_seq_properties;

/// One record handed to the renderer: the tree key, the optional parent
/// reference, the text of the aligned secondary column, and the payload text
/// carried through to the output row.
pub struct TreeItem {
    pub id: u64,
    pub parent_id: Option<u64>,
    pub tag: String,
    pub payload: String,
}

/// The mathematical value of a `TreeItem`.
pub struct ItemModel {
    pub id: u64,
    pub parent_id: Option<u64>,
    pub tag: Seq<char>,
    pub payload: Seq<char>,
}

impl View for TreeItem {
    type V = ItemModel;

    open spec fn view(&self) -> ItemModel {
        ItemModel {
            id: self.id,
            parent_id: self.parent_id,
            tag: self.tag@,
            payload: self.payload@,
        }
    }
}

impl TreeItem {
    /// A fresh item with the same value.
    pub fn duplicate(&self) -> (r: TreeItem)
        ensures
            r@ == self@,
    {
        TreeItem {
            id: self.id,
            parent_id: self.parent_id,
            tag: self.tag.clone(),
            payload: self.payload.clone(),
        }
    }
}

pub open spec fn views(s: Seq<TreeItem>) -> Seq<ItemModel> {
    s.map_values(|t: TreeItem| t@)
}

pub open spec fn ids_of(s: Seq<ItemModel>) -> Seq<u64> {
    s.map_values(|t: ItemModel| t.id)
}

/// No two records share an id.
pub open spec fn unique_ids(s: Seq<ItemModel>) -> bool {
    forall|i: int, j: int|
        0 <= i < s.len() && 0 <= j < s.len() && i != j ==> s[i].id != s[j].id
}

pub open spec fn has_id(s: Seq<ItemModel>, id: u64) -> bool {
    exists|i: int| 0 <= i < s.len() && s[i].id == id
}

/// The record carrying `id`; meaningful only when `has_id` holds and ids are
/// unique.
pub open spec fn item_with(s: Seq<ItemModel>, id: u64) -> ItemModel {
    s[choose|i: int| 0 <= i < s.len() && s[i].id == id]
}

pub open spec fn u64_leq() -> spec_fn(u64, u64) -> bool {
    |a: u64, b: u64| a <= b
}

/// The ids of `s` in ascending order.
pub open spec fn sorted_ids(s: Seq<ItemModel>) -> Seq<u64> {
    ids_of(s).sort_by(u64_leq())
}

/// The records of `s` in ascending id order: the canonical form every
/// permutation of one snapshot shares.
pub open spec fn canon(s: Seq<ItemModel>) -> Seq<ItemModel> {
    sorted_ids(s).map_values(|id: u64| item_with(s, id))
}

/// A record with no parent reference, or one whose parent id is absent from
/// the snapshot (an orphan), stands as a root.
pub open spec fn is_root(t: Seq<ItemModel>, x: ItemModel) -> bool {
    match x.parent_id {
        Option::None => true,
        Option::Some(p) => !has_id(t, p),
    }
}

/// Membership test for the children of the record with id `pid`.
pub open spec fn child_pred(pid: u64) -> spec_fn(ItemModel) -> bool {
    |c: ItemModel| c.parent_id == Option::Some(pid)
}

/// The children of the record with id `pid`, in the order of `t`.
pub open spec fn children_of(t: Seq<ItemModel>, pid: u64) -> Seq<ItemModel> {
    t.filter(child_pred(pid))
}

/// Membership test for the roots of the snapshot `t`.
pub open spec fn root_pred(t: Seq<ItemModel>) -> spec_fn(ItemModel) -> bool {
    |x: ItemModel| is_root(t, x)
}

/// Membership test for the records without a row in `out`.
pub open spec fn rest_pred(out: Seq<(Seq<char>, ItemModel)>) -> spec_fn(ItemModel) -> bool {
    |x: ItemModel| !emitted(out, x.id)
}

/// The two-character connector in front of a node's own id.
pub open spec fn connector(last: bool) -> Seq<char> {
    if last {
        seq!['└', '─']
    } else {
        seq!['├', '─']
    }
}

/// The two-character segment an ancestor contributes to all its
/// descendants' prefixes.
pub open spec fn cont_seg(last: bool) -> Seq<char> {
    if last {
        seq![' ', ' ']
    } else {
        seq!['│', ' ']
    }
}

pub open spec fn digit_char(d: nat) -> char {
    if d == 0 {
        '0'
    } else if d == 1 {
        '1'
    } else if d == 2 {
        '2'
    } else if d == 3 {
        '3'
    } else if d == 4 {
        '4'
    } else if d == 5 {
        '5'
    } else if d == 6 {
        '6'
    } else if d == 7 {
        '7'
    } else if d == 8 {
        '8'
    } else {
        '9'
    }
}

/// The decimal digits of `n`, most significant first.
pub open spec fn dec_digits(n: nat) -> Seq<char>
    decreases n,
{
    if n < 10 {
        seq![digit_char(n)]
    } else {
        dec_digits(n / 10).push(digit_char(n % 10))
    }
}

/// The left segment of one row: ancestor prefix, connector, id marker and
/// decimal id.
pub open spec fn left_seg(prefix: Seq<char>, last: bool, id: u64) -> Seq<char> {
    prefix + connector(last) + seq!['#'] + dec_digits(id as nat)
}

/// Pre-order rendering of the sibling list `sibs` at prefix `prefix`;
/// `fuel` bounds the recursion depth, one level per unit, and is always
/// given as the snapshot size, which no well-founded parent chain exceeds.
pub open spec fn render_list(
    t: Seq<ItemModel>,
    sibs: Seq<ItemModel>,
    prefix: Seq<char>,
    fuel: nat,
) -> Seq<(Seq<char>, ItemModel)>
    decreases fuel, sibs.len(),
{
    if sibs.len() == 0 {
        Seq::empty()
    } else {
        let x = sibs[0];
        let last = sibs.len() == 1;
        let row = (left_seg(prefix, last, x.id), x);
        let sub = if fuel == 0 {
            Seq::<(Seq<char>, ItemModel)>::empty()
        } else {
            render_list(t, children_of(t, x.id), prefix + cont_seg(last), (fuel - 1) as nat)
        };
        seq![row] + sub + render_list(t, sibs.drop_first(), prefix, fuel)
    }
}

/// Whether a row for id `id` already stands in `out`.
pub open spec fn emitted(out: Seq<(Seq<char>, ItemModel)>, id: u64) -> bool {
    exists|k: int| 0 <= k < out.len() && out[k].1.id == id
}

/// All left segments: the pre-order forest walk from the roots, followed by
/// the records a parent cycle kept unreachable, each broken out as an
/// orphan root.
pub open spec fn left_render(s: Seq<ItemModel>) -> Seq<(Seq<char>, ItemModel)> {
    let t = canon(s);
    let main = render_list(t, t.filter(root_pred(t)), Seq::empty(), t.len());
    let rest = t.filter(rest_pred(main));
    main + render_list(t, rest, Seq::empty(), 0)
}

/// The longest left segment of the output set.
pub open spec fn max_left(r: Seq<(Seq<char>, ItemModel)>) -> nat
    decreases r.len(),
{
    if r.len() == 0 {
        0
    } else if r.last().0.len() > max_left(r.drop_last()) {
        r.last().0.len()
    } else {
        max_left(r.drop_last())
    }
}

pub open spec fn spaces(n: nat) -> Seq<char>
    decreases n,
{
    if n == 0 {
        Seq::empty()
    } else {
        spaces((n - 1) as nat).push(' ')
    }
}

/// Pads every left segment to one column past the widest one, then appends
/// the secondary field, so the secondary field starts in the same column on
/// every row.
pub open spec fn pad_tag(r: Seq<(Seq<char>, ItemModel)>) -> Seq<(Seq<char>, ItemModel)> {
    let w = max_left(r);
    r.map_values(
        |p: (Seq<char>, ItemModel)|
            (p.0 + spaces((w + 1 - p.0.len()) as nat) + p.1.tag, p.1),
    )
}

/// The full rendering: one `(label, record)` row per input record, in
/// deterministic depth-first pre-order, with the secondary column aligned
/// when requested.
pub open spec fn forest_render(s: Seq<ItemModel>, with_tag: bool) -> Seq<(Seq<char>, ItemModel)> {
    if with_tag {
        pad_tag(left_render(s))
    } else {
        left_render(s)
    }
}

pub open spec fn rows_views(r: Seq<(Vec<char>, TreeItem)>) -> Seq<(Seq<char>, ItemModel)> {
    r.map_values(|p: (Vec<char>, TreeItem)| (p.0@, p.1@))
}

pub open spec fn pairs_views(r: Seq<(String, TreeItem)>) -> Seq<(Seq<char>, ItemModel)> {
    r.map_values(|p: (String, TreeItem)| (p.0@, p.1@))
}

/// Relies on std's `FromIterator` for `String`: collecting characters
/// concatenates them in order.
#[verifier::external_body]
fn chars_to_string(v: &Vec<char>) -> (s: String)
    ensures
        s@ == v@,
{
    v.iter().collect()
}

/// Relies on std's `str::chars`: yields the characters of the string in
/// order.
#[verifier::external_body]
fn string_chars(s: &String) -> (v: Vec<char>)
    ensures
        v@ == s@,
{
    s.chars().collect()
}

fn digit_char_exec(d: u64) -> (c: char)
    requires
        d < 10,
    ensures
        c == digit_char(d as nat),
{
    if d == 0 {
        '0'
    } else if d == 1 {
        '1'
    } else if d == 2 {
        '2'
    } else if d == 3 {
        '3'
    } else if d == 4 {
        '4'
    } else if d == 5 {
        '5'
    } else if d == 6 {
        '6'
    } else if d == 7 {
        '7'
    } else if d == 8 {
        '8'
    } else {
        '9'
    }
}

/// Appends the decimal digits of `n` to `out`.
fn digits_push(n: u64, out: &mut Vec<char>)
    ensures
        final(out)@ == old(out)@ + dec_digits(n as nat),
    decreases n,
{
    if n < 10 {
        out.push(digit_char_exec(n));
        assert(final(out)@ =~= old(out)@ + dec_digits(n as nat));
    } else {
        digits_push(n / 10, out);
        out.push(digit_char_exec(n % 10));
        assert(final(out)@ =~= old(out)@ + dec_digits(n as nat));
    }
}

/// In a snapshot with unique ids, the record found at an index is the record
/// carrying its id.
proof fn lemma_item_with_at(s: Seq<ItemModel>, i: int)
    requires
        unique_ids(s),
        0 <= i < s.len(),
    ensures
        item_with(s, s[i].id) == s[i],
{
    let id = s[i].id;
    let j = choose|j: int| 0 <= j < s.len() && s[j].id == id;
    assert(0 <= j < s.len() && s[j].id == id);
}

fn contains_id(v: &Vec<TreeItem>, id: u64) -> (b: bool)
    ensures
        b == has_id(views(v@), id),
{
    let mut i: usize = 0;
    while i < v.len()
        invariant
            0 <= i <= v.len(),
            forall|j: int| 0 <= j < i ==> views(v@)[j].id != id,
        decreases v.len() - i,
    {
        if v[i].id == id {
            assert(views(v@)[i as int].id == id);
            return true;
        }
        i += 1;
    }
    false
}

fn find_item(v: &Vec<TreeItem>, id: u64) -> (r: TreeItem)
    requires
        unique_ids(views(v@)),
        has_id(views(v@), id),
    ensures
        r@ == item_with(views(v@), id),
{
    let ghost s = views(v@);
    let mut i: usize = 0;
    while i < v.len()
        invariant
            0 <= i <= v.len(),
            s == views(v@),
            unique_ids(s),
            has_id(s, id),
            forall|j: int| 0 <= j < i ==> s[j].id != id,
        decreases v.len() - i,
    {
        if v[i].id == id {
            proof {
                lemma_item_with_at(s, i as int);
            }
            return v[i].duplicate();
        }
        i += 1;
    }
    proof {
        let w = choose|w: int| 0 <= w < s.len() && s[w].id == id;
        assert(false);
    }
    unreached()
}

pub proof fn lemma_u64_leq_total()
    ensures
        total_ordering(u64_leq()),
{
}

/// Insertion sort over ids; the result is the one ascending arrangement of
/// the input values.
fn sort_u64(v: &Vec<u64>) -> (r: Vec<u64>)
    ensures
        r@ == v@.sort_by(u64_leq()),
{
    broadcast use vstd::seq_lib::group_to_multiset_ensures;

    let mut out: Vec<u64> = Vec::new();
    let mut i: usize = 0;
    while i < v.len()
        invariant
            0 <= i <= v.len(),
            sorted_by(out@, u64_leq()),
            out@.to_multiset() == v@.take(i as int).to_multiset(),
        decreases v.len() - i,
    {
        let x = v[i];
        let mut j: usize = 0;
        while j < out.len() && out[j] <= x
            invariant
                0 <= j <= out@.len(),
                forall|a: int| 0 <= a < j ==> out@[a] <= x,
            decreases out.len() - j,
        {
            j += 1;
        }
        let ghost before = out@;
        proof {
            assert(forall|a: int| 0 <= a < j ==> before[a] <= x);
            assert(j == before.len() || !(before[j as int] <= x));
        }
        out.insert(j, x);
        proof {
            assert(out@ =~= before.take(j as int) + seq![x] + before.skip(j as int));
            vstd::seq_lib::lemma_multiset_commutative(before.take(j as int), seq![x]);
            vstd::seq_lib::lemma_multiset_commutative(
                before.take(j as int) + seq![x],
                before.skip(j as int),
            );
            vstd::seq_lib::lemma_multiset_commutative(before.take(j as int), before.skip(j as int));
            assert(before =~= before.take(j as int) + before.skip(j as int));
            assert(out@.to_multiset() =~= before.to_multiset().insert(x));
            assert(v@.take(i as int + 1) =~= v@.take(i as int).push(x));
            assert(forall|a: int| 0 <= a < j ==> out@[a] == before[a]);
            assert(out@[j as int] == x);
            assert(forall|b: int| j < b < out@.len() ==> out@[b] == before[b - 1]);
            assert forall|a: int, b: int| 0 <= a < b < out@.len() implies u64_leq()(
                out@[a],
                out@[b],
            ) by {
                if b < j {
                    assert(u64_leq()(before[a], before[b]));
                } else if b == j {
                    assert(out@[a] == before[a] && before[a] <= x);
                } else if a < j {
                    assert(u64_leq()(before[a], before[b - 1]));
                } else if a == j {
                    assert(j < before.len() && !(before[j as int] <= x));
                    if j < b - 1 {
                        assert(u64_leq()(before[j as int], before[b - 1]));
                    }
                } else {
                    assert(u64_leq()(before[a - 1], before[b - 1]));
                }
            }
            assert(sorted_by(out@, u64_leq()));
        }
        i += 1;
    }
    proof {
        lemma_u64_leq_total();
        assert(v@.take(v@.len() as int) =~= v@);
        v@.lemma_sort_by_ensures(u64_leq());
        lemma_sorted_unique(out@, v@.sort_by(u64_leq()), u64_leq());
        assert(out@ =~= v@.sort_by(u64_leq()));
    }
    out
}

/// Collects the children of `pid` in the order of `t`.
fn collect_children(t: &Vec<TreeItem>, pid: u64) -> (r: Vec<TreeItem>)
    ensures
        views(r@) == children_of(views(t@), pid),
{
    let ghost tv = views(t@);
    let mut r: Vec<TreeItem> = Vec::new();
    let mut i: usize = 0;
    while i < t.len()
        invariant
            0 <= i <= t.len(),
            tv == views(t@),
            views(r@) == tv.take(i as int).filter(child_pred(pid)),
        decreases t.len() - i,
    {
        let is_child = match t[i].parent_id {
            Option::Some(p) => p == pid,
            Option::None => false,
        };
        let ghost before = views(r@);
        if is_child {
            r.push(t[i].duplicate());
        }
        proof {
            assert(tv[i as int] == t@[i as int]@);
            assert(tv.take(i as int + 1) =~= tv.take(i as int).push(tv[i as int]));
            tv.take(i as int).lemma_filter_push(tv[i as int], child_pred(pid));
            assert(child_pred(pid)(tv[i as int]) == is_child);
            if is_child {
                assert(views(r@) =~= before.push(tv[i as int]));
            } else {
                assert(views(r@) == before);
            }
            assert(views(r@) =~= tv.take(i as int + 1).filter(child_pred(pid)));
        }
        i += 1;
    }
    proof {
        assert(tv.take(t@.len() as int) =~= tv);
    }
    r
}

/// Emits the rows of `render_list` for `sibs` into `out`.
fn render_rows(
    t: &Vec<TreeItem>,
    sibs: Vec<TreeItem>,
    prefix: Vec<char>,
    fuel: usize,
    out: &mut Vec<(Vec<char>, TreeItem)>,
)
    ensures
        rows_views(final(out)@) == rows_views(old(out)@) + render_list(
            views(t@),
            views(sibs@),
            prefix@,
            fuel as nat,
        ),
    decreases fuel, sibs@.len(),
{
    let ghost tv = views(t@);
    let ghost sv = views(sibs@);
    let ghost base = rows_views(out@);
    let n = sibs.len();
    let mut j: usize = 0;
    while j < n
        invariant
            0 <= j <= n,
            n == sibs@.len(),
            tv == views(t@),
            sv == views(sibs@),
            rows_views(out@) + render_list(tv, sv.skip(j as int), prefix@, fuel as nat) == base
                + render_list(tv, sv, prefix@, fuel as nat),
        decreases n - j,
    {
        let ghost pending = sv.skip(j as int);
        let last = j == n - 1;
        let mut label = prefix.clone();
        if last {
            label.push('└');
        } else {
            label.push('├');
        }
        label.push('─');
        label.push('#');
        digits_push(sibs[j].id, &mut label);
        proof {
            assert(label@ =~= left_seg(prefix@, last, sv[j as int].id));
        }
        let ghost out_before = rows_views(out@);
        out.push((label, sibs[j].duplicate()));
        proof {
            assert(rows_views(out@) =~= out_before + seq![
                (left_seg(prefix@, last, sv[j as int].id), sv[j as int]),
            ]);
        }
        if fuel > 0 {
            let kids = collect_children(t, sibs[j].id);
            let mut child_prefix = prefix.clone();
            if last {
                child_prefix.push(' ');
                child_prefix.push(' ');
            } else {
                child_prefix.push('│');
                child_prefix.push(' ');
            }
            proof {
                assert(child_prefix@ =~= prefix@ + cont_seg(last));
            }
            render_rows(t, kids, child_prefix, fuel - 1, out);
        }
        proof {
            assert(pending.len() > 0);
            assert(pending[0] == sv[j as int]);
            assert(pending.drop_first() =~= sv.skip(j as int + 1));
            assert((pending.len() == 1) == last);
            assert(render_list(tv, pending, prefix@, fuel as nat) == seq![
                (left_seg(prefix@, last, sv[j as int].id), sv[j as int]),
            ] + (if fuel == 0 {
                Seq::<(Seq<char>, ItemModel)>::empty()
            } else {
                render_list(tv, children_of(tv, sv[j as int].id), prefix@ + cont_seg(last), (
                fuel - 1) as nat)
            }) + render_list(tv, sv.skip(j as int + 1), prefix@, fuel as nat));
            assert(rows_views(out@) + render_list(tv, sv.skip(j as int + 1), prefix@, fuel as nat)
                =~= base + render_list(tv, sv, prefix@, fuel as nat));
        }
        j += 1;
    }
    proof {
        assert(sv.skip(n as int) =~= Seq::<ItemModel>::empty());
        assert(rows_views(out@) =~= base + render_list(tv, sv, prefix@, fuel as nat));
    }
}

fn row_id_emitted(rows: &Vec<(Vec<char>, TreeItem)>, id: u64) -> (b: bool)
    ensures
        b == emitted(rows_views(rows@), id),
{
    let mut k: usize = 0;
    while k < rows.len()
        invariant
            0 <= k <= rows.len(),
            forall|a: int| 0 <= a < k ==> rows_views(rows@)[a].1.id != id,
        decreases rows.len() - k,
    {
        if rows[k].1.id == id {
            assert(rows_views(rows@)[k as int].1.id == id);
            return true;
        }
        k += 1;
    }
    false
}

/// Every left segment is at most the widest one.
pub proof fn lemma_max_left_bound(r: Seq<(Seq<char>, ItemModel)>, k: int)
    requires
        0 <= k < r.len(),
    ensures
        r[k].0.len() <= max_left(r),
    decreases r.len(),
{
    if k + 1 < r.len() {
        lemma_max_left_bound(r.drop_last(), k);
    }
}


/// Turns the finished left segments into display strings, aligning the
/// secondary column when requested.
fn finalize_rows(
    rows: Vec<(Vec<char>, TreeItem)>,
    with_tag: bool,
    Ghost(lr): Ghost<Seq<(Seq<char>, ItemModel)>>,
) -> (r: Vec<(String, TreeItem)>)
    requires
        rows_views(rows@) == lr,
    ensures
        pairs_views(r@) == if with_tag {
            pad_tag(lr)
        } else {
            lr
        },
{
    let mut r: Vec<(String, TreeItem)> = Vec::new();
    if with_tag {
        let mut w: usize = 0;
        let mut k: usize = 0;
        while k < rows.len()
            invariant
                0 <= k <= rows.len(),
                rows_views(rows@) == lr,
                w as nat == max_left(lr.take(k as int)),
            decreases rows.len() - k,
        {
            proof {
                assert(lr.take(k as int + 1).drop_last() =~= lr.take(k as int));
                assert(lr.take(k as int + 1).last() == lr[k as int]);
            }
            if rows[k].0.len() > w {
                w = rows[k].0.len();
            }
            k += 1;
        }
        proof {
            assert(lr.take(rows@.len() as int) =~= lr);
        }
        let mut k: usize = 0;
        while k < rows.len()
            invariant
                0 <= k <= rows.len(),
                rows_views(rows@) == lr,
                w as nat == max_left(lr),
                pairs_views(r@) == pad_tag(lr).take(k as int),
            decreases rows.len() - k,
        {
            let mut label = rows[k].0.clone();
            proof {
                lemma_max_left_bound(lr, k as int);
                assert(rows_views(rows@)[k as int] == (rows@[k as int].0@, rows@[k as int].1@));
                assert(label@ == lr[k as int].0);
                assert(label@ =~= lr[k as int].0 + spaces(0));
            }
            while label.len() <= w
                invariant
                    0 <= k < lr.len(),
                    w as nat == max_left(lr),
                    lr[k as int].0.len() <= w as nat,
                    label@.len() >= lr[k as int].0.len(),
                    label@.len() <= w + 1,
                    label@ == lr[k as int].0 + spaces((label@.len() - lr[k as int].0.len()) as nat),
                decreases w + 1 - label.len(),
            {
                label.push(' ');
                proof {
                    assert(label@ =~= lr[k as int].0 + spaces(
                        (label@.len() - lr[k as int].0.len()) as nat,
                    ));
                }
            }
            proof {
                assert(label@.len() == w + 1);
                assert(label@ == lr[k as int].0 + spaces(
                    (max_left(lr) + 1 - lr[k as int].0.len()) as nat,
                ));
            }
            let mut tag = string_chars(&rows[k].1.tag);
            proof {
                assert(rows_views(rows@)[k as int] == (rows@[k as int].0@, rows@[k as int].1@));
                assert(tag@ == lr[k as int].1.tag);
            }
            label.append(&mut tag);
            let s = chars_to_string(&label);
            let ghost before_r = pairs_views(r@);
            r.push((s, rows[k].1.duplicate()));
            proof {
                assert(lr.len() == rows@.len());
                assert(before_r.len() == k);
                assert(r@.len() == k + 1);
                assert(label@ =~= lr[k as int].0 + spaces(
                    (max_left(lr) + 1 - lr[k as int].0.len()) as nat,
                ) + lr[k as int].1.tag);
                assert(pad_tag(lr)[k as int] == (
                    lr[k as int].0 + spaces((max_left(lr) + 1 - lr[k as int].0.len()) as nat)
                        + lr[k as int].1.tag,
                    lr[k as int].1,
                ));
                assert(pairs_views(r@)[k as int] == (s@, rows@[k as int].1@));
                assert(pairs_views(r@) =~= before_r.push(pad_tag(lr)[k as int]));
                assert(pairs_views(r@) =~= pad_tag(lr).take(k as int + 1));
            }
            k += 1;
        }
        proof {
            assert(pad_tag(lr).take(rows@.len() as int) =~= pad_tag(lr));
        }
    } else {
        let mut k: usize = 0;
        while k < rows.len()
            invariant
                0 <= k <= rows.len(),
                rows_views(rows@) == lr,
                pairs_views(r@) == lr.take(k as int),
            decreases rows.len() - k,
        {
            let s = chars_to_string(&rows[k].0);
            let ghost before_r = pairs_views(r@);
            r.push((s, rows[k].1.duplicate()));
            proof {
                assert(lr.len() == rows@.len());
                assert(before_r.len() == k);
                assert(r@.len() == k + 1);
                assert(rows_views(rows@)[k as int] == (rows@[k as int].0@, rows@[k as int].1@));
                assert(pairs_views(r@)[k as int] == (s@, rows@[k as int].1@));
                assert(pairs_views(r@) =~= before_r.push(lr[k as int]));
                assert(pairs_views(r@) =~= lr.take(k as int + 1));
            }
            k += 1;
        }
        proof {
            assert(pairs_views(r@) =~= lr);
        }
    }
    r
}

/// Renders one snapshot as display rows: one `(label, record)` pair per
/// input record, in deterministic depth-first pre-order with roots and
/// sibling groups ascending by id; with `with_tag` the secondary field is
/// aligned one column past the widest left segment.
pub fn tree_list_widget(items: Vec<TreeItem>, with_tag: bool) -> (r: Vec<(String, TreeItem)>)
    requires
        unique_ids(views(items@)),
    ensures
        pairs_views(r@) == forest_render(views(items@), with_tag),
{
    broadcast use vstd::seq_lib::group_to_multiset_ensures;

    let ghost sv = views(items@);
    // ids, then their ascending arrangement
    let mut ids: Vec<u64> = Vec::new();
    let mut i: usize = 0;
    while i < items.len()
        invariant
            0 <= i <= items.len(),
            sv == views(items@),
            ids@ == ids_of(sv).take(i as int),
        decreases items.len() - i,
    {
        ids.push(items[i].id);
        proof {
            assert(ids@ =~= ids_of(sv).take(i as int + 1));
        }
        i += 1;
    }
    proof {
        assert(ids_of(sv).take(items@.len() as int) =~= ids_of(sv));
    }
    let sorted = sort_u64(&ids);
    proof {
        lemma_u64_leq_total();
        ids_of(sv).lemma_sort_by_ensures(u64_leq());
        sorted@.to_multiset_ensures();
        ids_of(sv).to_multiset_ensures();
    }
    // the canonical arrangement of the records
    let mut tvec: Vec<TreeItem> = Vec::new();
    let mut k: usize = 0;
    while k < sorted.len()
        invariant
            0 <= k <= sorted.len(),
            sv == views(items@),
            unique_ids(sv),
            sorted@ == sorted_ids(sv),
            sorted@.to_multiset() == ids_of(sv).to_multiset(),
            sorted@.len() == sv.len(),
            views(tvec@) == canon(sv).take(k as int),
        decreases sorted.len() - k,
    {
        proof {
            assert(sorted@.to_multiset().contains(sorted@[k as int]));
            assert(ids_of(sv).contains(sorted@[k as int]));
            let w = choose|w: int| 0 <= w < ids_of(sv).len() && ids_of(sv)[w] == sorted@[k as int];
            assert(sv[w].id == sorted@[k as int]);
        }
        let it = find_item(&items, sorted[k]);
        let ghost prev = tvec@;
        tvec.push(it);
        proof {
            assert(canon(sv).len() == sorted_ids(sv).len());
            assert(views(prev).len() == prev.len());
            assert(prev.len() == k);
            assert(tvec@[k as int] == it);
            assert(views(tvec@)[k as int] == tvec@[k as int]@);
            assert(canon(sv)[k as int] == item_with(sv, sorted@[k as int]));
            assert(views(tvec@) =~= canon(sv).take(k as int + 1));
        }
        k += 1;
    }
    proof {
        assert(canon(sv).take(canon(sv).len() as int) =~= canon(sv));
    }
    let ghost tv = canon(sv);
    // roots, ascending by id
    let mut roots: Vec<TreeItem> = Vec::new();
    let mut k: usize = 0;
    while k < tvec.len()
        invariant
            0 <= k <= tvec.len(),
            tv == views(tvec@),
            views(roots@) == tv.take(k as int).filter(root_pred(tv)),
        decreases tvec.len() - k,
    {
        let is_r = match tvec[k].parent_id {
            Option::None => true,
            Option::Some(p) => !contains_id(&tvec, p),
        };
        let ghost before = views(roots@);
        if is_r {
            roots.push(tvec[k].duplicate());
        }
        proof {
            assert(tv[k as int] == tvec@[k as int]@);
            assert(tv.take(k as int + 1) =~= tv.take(k as int).push(tv[k as int]));
            tv.take(k as int).lemma_filter_push(tv[k as int], root_pred(tv));
            assert(root_pred(tv)(tv[k as int]) == is_r);
            if is_r {
                assert(views(roots@) =~= before.push(tv[k as int]));
            }
            assert(views(roots@) =~= tv.take(k as int + 1).filter(root_pred(tv)));
        }
        k += 1;
    }
    proof {
        assert(tv.take(tvec@.len() as int) =~= tv);
    }
    // the walk from the roots
    let mut rows: Vec<(Vec<char>, TreeItem)> = Vec::new();
    let fuel = tvec.len();
    render_rows(&tvec, roots, Vec::new(), fuel, &mut rows);
    let ghost main = render_list(tv, tv.filter(root_pred(tv)), Seq::empty(), tv.len());
    proof {
        assert(rows_views(rows@) =~= main);
    }
    // records a parent cycle kept away from every root
    let mut rest: Vec<TreeItem> = Vec::new();
    let mut k: usize = 0;
    while k < tvec.len()
        invariant
            0 <= k <= tvec.len(),
            tv == views(tvec@),
            rows_views(rows@) == main,
            views(rest@) == tv.take(k as int).filter(rest_pred(main)),
        decreases tvec.len() - k,
    {
        let present = row_id_emitted(&rows, tvec[k].id);
        let ghost before = views(rest@);
        if !present {
            rest.push(tvec[k].duplicate());
        }
        proof {
            assert(tv[k as int] == tvec@[k as int]@);
            assert(tv.take(k as int + 1) =~= tv.take(k as int).push(tv[k as int]));
            tv.take(k as int).lemma_filter_push(tv[k as int], rest_pred(main));
            assert(rest_pred(main)(tv[k as int]) == !present);
            if !present {
                assert(views(rest@) =~= before.push(tv[k as int]));
            }
            assert(views(rest@) =~= tv.take(k as int + 1).filter(rest_pred(main)));
        }
        k += 1;
    }
    proof {
        assert(tv.take(tvec@.len() as int) =~= tv);
    }
    render_rows(&tvec, rest, Vec::new(), 0, &mut rows);
    proof {
        assert(rows_views(rows@) =~= left_render(sv));
    }
    // final labels, with the secondary column aligned when requested
    let r = finalize_rows(rows, with_tag, Ghost(left_render(sv)));
    r
}


// ---- laws of the rendering ----

pub proof fn lemma_spaces_len(n: nat)
    ensures
        spaces(n).len() == n,
    decreases n,
{
    if n > 0 {
        lemma_spaces_len((n - 1) as nat);
    }
}

/// Law: with the secondary column requested, the label and the record of
/// one row belong together: the k-th label is the k-th record's own left
/// segment, padded, followed by that same record's tag, so reading label k
/// and payload k always reads one record.
pub proof fn lemma_row_integrity(m: Seq<ItemModel>, k: int)
    requires
        0 <= k < forest_render(m, true).len(),
    ensures
        forest_render(m, true).len() == left_render(m).len(),
        forest_render(m, true)[k].1 == left_render(m)[k].1,
        forest_render(m, true)[k].0 == left_render(m)[k].0 + spaces(
            (max_left(left_render(m)) + 1 - left_render(m)[k].0.len()) as nat,
        ) + left_render(m)[k].1.tag,
{
}

/// Law: with the secondary column requested, that column starts at the same
/// place on every row: one past the widest left segment, whatever the row's
/// depth.
pub proof fn lemma_column_alignment(m: Seq<ItemModel>, k: int)
    requires
        0 <= k < forest_render(m, true).len(),
    ensures
        forest_render(m, true)[k].0.len() == max_left(left_render(m)) + 1 + left_render(
            m,
        )[k].1.tag.len(),
        forest_render(m, true)[k].0.skip(max_left(left_render(m)) as int + 1) == left_render(
            m,
        )[k].1.tag,
{
    lemma_row_integrity(m, k);
    let lr = left_render(m);
    let w = max_left(lr);
    lemma_max_left_bound(lr, k);
    lemma_spaces_len((w + 1 - lr[k].0.len()) as nat);
    assert(forest_render(m, true)[k].0.skip(w as int + 1) =~= lr[k].1.tag);
}

/// Every record in a sibling list gets a row of its own, carrying the
/// record and its own connector at the level's prefix.
proof fn lemma_render_list_contains(
    t: Seq<ItemModel>,
    sibs: Seq<ItemModel>,
    prefix: Seq<char>,
    fuel: nat,
    x: ItemModel,
)
    requires
        sibs.contains(x),
    ensures
        exists|k: int, last: bool|
            0 <= k < render_list(t, sibs, prefix, fuel).len() && render_list(
                t,
                sibs,
                prefix,
                fuel,
            )[k] == (left_seg(prefix, last, x.id), x),
    decreases sibs.len(),
{
    let out = render_list(t, sibs, prefix, fuel);
    if sibs[0] == x {
        let last0 = sibs.len() == 1;
        assert(out[0] == (left_seg(prefix, last0, x.id), x));
    } else {
        let i = choose|i: int| 0 <= i < sibs.len() && sibs[i] == x;
        assert(sibs.drop_first()[i - 1] == x);
        assert(sibs.drop_first().contains(x));
        lemma_render_list_contains(t, sibs.drop_first(), prefix, fuel, x);
        let rest = render_list(t, sibs.drop_first(), prefix, fuel);
        let (k, last) = choose|k: int, last: bool|
            0 <= k < rest.len() && rest[k] == (left_seg(prefix, last, x.id), x);
        assert(out[out.len() - rest.len() + k] == (left_seg(prefix, last, x.id), x));
    }
}

/// Every row the renderer emits carries a record of the snapshot.
proof fn lemma_rows_in_snapshot(
    t: Seq<ItemModel>,
    sibs: Seq<ItemModel>,
    prefix: Seq<char>,
    fuel: nat,
)
    requires
        forall|i: int| 0 <= i < sibs.len() ==> t.contains(#[trigger] sibs[i]),
    ensures
        forall|k: int|
            0 <= k < render_list(t, sibs, prefix, fuel).len() ==> t.contains(
                #[trigger] render_list(t, sibs, prefix, fuel)[k].1,
            ),
    decreases fuel, sibs.len(),
{
    broadcast use Seq::lemma_filter_contains_rev;

    let out = render_list(t, sibs, prefix, fuel);
    if sibs.len() > 0 {
        let x = sibs[0];
        let last = sibs.len() == 1;
        assert(t.contains(x));
        if fuel > 0 {
            let kids = children_of(t, x.id);
            assert forall|i: int| 0 <= i < kids.len() implies t.contains(#[trigger] kids[i]) by {
                assert(kids.contains(kids[i]));
            }
            lemma_rows_in_snapshot(t, kids, prefix + cont_seg(last), (fuel - 1) as nat);
        }
        assert forall|i: int| 0 <= i < sibs.drop_first().len() implies t.contains(
            #[trigger] sibs.drop_first()[i],
        ) by {
            assert(sibs.drop_first()[i] == sibs[i + 1]);
        }
        lemma_rows_in_snapshot(t, sibs.drop_first(), prefix, fuel);
        let sub = if fuel == 0 {
            Seq::<(Seq<char>, ItemModel)>::empty()
        } else {
            render_list(t, children_of(t, x.id), prefix + cont_seg(last), (fuel - 1) as nat)
        };
        let tail = render_list(t, sibs.drop_first(), prefix, fuel);
        assert forall|k: int| 0 <= k < out.len() implies t.contains(#[trigger] out[k].1) by {
            if k == 0 {
            } else if k < 1 + sub.len() {
                assert(out[k] == sub[k - 1]);
            } else {
                assert(out[k] == tail[k - 1 - sub.len()]);
            }
        }
    }
}

/// Each row of the canonical arrangement carries a record of the snapshot,
/// and each record of the snapshot stands in the canonical arrangement.
pub proof fn lemma_canon_elements(m: Seq<ItemModel>)
    requires
        unique_ids(m),
    ensures
        canon(m).len() == m.len(),
        forall|j: int| 0 <= j < canon(m).len() ==> m.contains(#[trigger] canon(m)[j]),
        forall|w: int| 0 <= w < m.len() ==> canon(m).contains(#[trigger] m[w]),
{
    lemma_u64_leq_total();
    ids_of(m).lemma_sort_by_ensures(u64_leq());
    ids_of(m).to_multiset_ensures();
    sorted_ids(m).to_multiset_ensures();
    assert(sorted_ids(m).len() == m.len());
    assert forall|j: int| 0 <= j < canon(m).len() implies m.contains(
        #[trigger] canon(m)[j],
    ) by {
        let id = sorted_ids(m)[j];
        assert(sorted_ids(m).contains(id));
        assert(sorted_ids(m).to_multiset().count(id) > 0);
        assert(ids_of(m).to_multiset().count(id) > 0);
        assert(ids_of(m).contains(id));
        let w = choose|w: int| 0 <= w < ids_of(m).len() && ids_of(m)[w] == id;
        lemma_item_with_at(m, w);
        assert(canon(m)[j] == item_with(m, id));
        assert(canon(m)[j] == m[w]);
    }
    assert forall|w: int| 0 <= w < m.len() implies canon(m).contains(#[trigger] m[w]) by {
        let id = m[w].id;
        assert(ids_of(m)[w] == id);
        assert(ids_of(m).contains(id));
        assert(ids_of(m).to_multiset().count(id) > 0);
        assert(sorted_ids(m).to_multiset().count(id) > 0);
        assert(sorted_ids(m).contains(id));
        let j = choose|j: int| 0 <= j < sorted_ids(m).len() && sorted_ids(m)[j] == id;
        lemma_item_with_at(m, w);
        assert(canon(m)[j] == item_with(m, id));
        assert(canon(m)[j] == m[w]);
    }
}

/// Law: a record without a parent, and just as well one whose parent id is
/// absent from its snapshot, is rendered as a row of its own at root level
/// -- a depth-0 connector with no ancestor prefix -- never dropped.
pub proof fn lemma_orphan_rendered(m: Seq<ItemModel>, i: int, with_tag: bool)
    requires
        unique_ids(m),
        0 <= i < m.len(),
        m[i].parent_id matches Some(p) ==> !has_id(m, p),
    ensures
        exists|k: int|
            0 <= k < forest_render(m, with_tag).len() && #[trigger] forest_render(
                m,
                with_tag,
            )[k].1 == m[i],
        exists|k: int, last: bool|
            0 <= k < left_render(m).len() && left_render(m)[k] == (
                left_seg(Seq::empty(), last, m[i].id),
                m[i],
            ) && forest_render(m, with_tag)[k].1 == m[i],
{
    lemma_canon_elements(m);
    let t = canon(m);
    let x = m[i];
    assert(t.contains(x));
    let j = choose|j: int| 0 <= j < t.len() && t[j] == x;
    assert(is_root(t, x)) by {
        match x.parent_id {
            Option::Some(p) => {
                if has_id(t, p) {
                    let q = choose|q: int| 0 <= q < t.len() && t[q].id == p;
                    assert(m.contains(t[q]));
                    let w = choose|w: int| 0 <= w < m.len() && m[w] == t[q];
                    assert(m[w].id == p);
                    assert(has_id(m, p));
                }
            },
            Option::None => {},
        }
    }
    assert(root_pred(t)(t[j]));
    t.lemma_filter_contains(root_pred(t), j);
    let roots = t.filter(root_pred(t));
    assert(roots.contains(x));
    lemma_render_list_contains(t, roots, Seq::empty(), t.len(), x);
    let main = render_list(t, roots, Seq::empty(), t.len());
    let (k, last) = choose|k: int, last: bool|
        0 <= k < main.len() && main[k] == (left_seg(Seq::empty(), last, x.id), x);
    assert(left_render(m)[k] == (left_seg(Seq::empty(), last, x.id), x));
    if with_tag {
        assert(forest_render(m, with_tag)[k].1 == x);
    } else {
        assert(forest_render(m, with_tag)[k].1 == x);
    }
}

/// The canonical arrangement of a unique-id snapshot has unique ids itself.
proof fn lemma_canon_unique(m: Seq<ItemModel>)
    requires
        unique_ids(m),
    ensures
        unique_ids(canon(m)),
{
    lemma_u64_leq_total();
    ids_of(m).lemma_sort_by_ensures(u64_leq());
    ids_of(m).to_multiset_ensures();
    sorted_ids(m).to_multiset_ensures();
    assert(ids_of(m).no_duplicates()) by {
        assert forall|i: int, j: int|
            0 <= i < ids_of(m).len() && 0 <= j < ids_of(m).len() && i != j implies ids_of(m)[i]
            != ids_of(m)[j] by {}
    }
    ids_of(m).lemma_multiset_has_no_duplicates();
    sorted_ids(m).lemma_multiset_has_no_duplicates_conv();
    assert forall|a: int|
        0 <= a < canon(m).len() implies #[trigger] canon(m)[a].id == sorted_ids(m)[a] by {
        let id = sorted_ids(m)[a];
        assert(sorted_ids(m).contains(id));
        assert(sorted_ids(m).to_multiset().count(id) > 0);
        assert(ids_of(m).to_multiset().count(id) > 0);
        assert(ids_of(m).contains(id));
        let w = choose|w: int| 0 <= w < ids_of(m).len() && ids_of(m)[w] == id;
        assert(has_id(m, id));
        let v = choose|v: int| 0 <= v < m.len() && m[v].id == id;
        assert(item_with(m, id).id == id);
    }
    assert forall|a: int, b: int|
        0 <= a < canon(m).len() && 0 <= b < canon(m).len() && a != b implies canon(m)[a].id
        != canon(m)[b].id by {
        assert(sorted_ids(m)[a] != sorted_ids(m)[b]);
    }
}

/// Law: no record of a snapshot is dropped. Whether it is a proper child,
/// an orphan, or caught in a parent cycle, each record stands in the
/// rendered output as the record of some row.
pub proof fn lemma_every_record_rendered(m: Seq<ItemModel>, i: int, with_tag: bool)
    requires
        unique_ids(m),
        0 <= i < m.len(),
    ensures
        exists|k: int|
            0 <= k < forest_render(m, with_tag).len() && #[trigger] forest_render(
                m,
                with_tag,
            )[k].1 == m[i],
{
    lemma_canon_elements(m);
    lemma_canon_unique(m);
    let t = canon(m);
    let x = m[i];
    assert(t.contains(x));
    let xi = choose|xi: int| 0 <= xi < t.len() && t[xi] == x;
    let roots = t.filter(root_pred(t));
    let main = render_list(t, roots, Seq::empty(), t.len());
    if emitted(main, x.id) {
        assert forall|j: int| 0 <= j < roots.len() implies t.contains(#[trigger] roots[j]) by {
            assert(roots.contains(roots[j]));
            t.lemma_filter_contains_rev(root_pred(t), roots[j]);
        }
        lemma_rows_in_snapshot(t, roots, Seq::empty(), t.len());
        let k = choose|k: int| 0 <= k < main.len() && main[k].1.id == x.id;
        assert(t.contains(main[k].1));
        let w = choose|w: int| 0 <= w < t.len() && t[w] == main[k].1;
        assert(t[w].id == t[xi].id);
        assert(main[k].1 == x);
        assert(left_render(m)[k].1 == x);
        assert(forest_render(m, with_tag)[k].1 == x);
    } else {
        assert(rest_pred(main)(t[xi]));
        t.lemma_filter_contains(rest_pred(main), xi);
        let rest = t.filter(rest_pred(main));
        assert(rest.contains(x));
        lemma_render_list_contains(t, rest, Seq::empty(), 0, x);
        let restout = render_list(t, rest, Seq::empty(), 0);
        let (k2, last) = choose|k2: int, last: bool|
            0 <= k2 < restout.len() && restout[k2] == (left_seg(Seq::empty(), last, x.id), x);
        assert(left_render(m)[main.len() + k2].1 == x);
        assert(forest_render(m, with_tag)[main.len() + k2].1 == x);
    }
}

/// Permuting the records permutes their ids.
proof fn lemma_perm_ids(a: Seq<ItemModel>, b: Seq<ItemModel>)
    requires
        a.to_multiset() == b.to_multiset(),
    ensures
        ids_of(a).to_multiset() == ids_of(b).to_multiset(),
    decreases a.len(),
{
    a.to_multiset_ensures();
    b.to_multiset_ensures();
    ids_of(a).to_multiset_ensures();
    ids_of(b).to_multiset_ensures();
    if a.len() == 0 {
        assert(b.len() == 0);
        assert(ids_of(a) =~= ids_of(b));
    } else {
        let x = a.last();
        assert(a.contains(x));
        assert(a.to_multiset().count(x) > 0);
        assert(b.to_multiset().count(x) > 0);
        assert(b.contains(x));
        let q = choose|q: int| 0 <= q < b.len() && b[q] == x;
        let a2 = a.drop_last();
        let b2 = b.remove(q);
        assert(a.remove(a.len() - 1) =~= a2);
        assert(a2.to_multiset() == a.to_multiset().remove(x));
        assert(b2.to_multiset() == b.to_multiset().remove(x));
        lemma_perm_ids(a2, b2);
        a2.to_multiset_ensures();
        b2.to_multiset_ensures();
        assert(ids_of(a2).push(x.id) =~= ids_of(a));
        assert(ids_of(a).to_multiset() == ids_of(a2).to_multiset().insert(x.id));
        assert(ids_of(b2) =~= ids_of(b).remove(q));
        assert(ids_of(b).remove(q).to_multiset() == ids_of(b).to_multiset().remove(
            ids_of(b)[q],
        ));
        assert(ids_of(b)[q] == x.id);
        assert(ids_of(b).to_multiset().count(x.id) > 0) by {
            assert(ids_of(b).contains(x.id));
        }
        assert(ids_of(a).to_multiset() =~= ids_of(b).to_multiset()) by {
            assert forall|v: u64| true implies ids_of(a).to_multiset().count(v) == ids_of(
                b,
            ).to_multiset().count(v) by {
                assert(ids_of(a2).to_multiset().count(v) == ids_of(b2).to_multiset().count(v));
            }
        }
    }
}

/// Law: the rendering is order-independent. Two arrangements of one record
/// set -- the same records, in any order -- render to the identical output
/// sequence.
pub proof fn lemma_order_independent(a: Seq<ItemModel>, b: Seq<ItemModel>, with_tag: bool)
    requires
        unique_ids(a),
        a.to_multiset() == b.to_multiset(),
    ensures
        forest_render(a, with_tag) == forest_render(b, with_tag),
{
    lemma_u64_leq_total();
    lemma_perm_ids(a, b);
    a.to_multiset_ensures();
    b.to_multiset_ensures();
    ids_of(a).to_multiset_ensures();
    ids_of(b).to_multiset_ensures();
    // the ids of b are unique as well
    assert(ids_of(a).no_duplicates()) by {
        assert forall|i: int, j: int|
            0 <= i < ids_of(a).len() && 0 <= j < ids_of(a).len() && i != j implies ids_of(a)[i]
            != ids_of(a)[j] by {}
    }
    ids_of(a).lemma_multiset_has_no_duplicates();
    ids_of(b).lemma_multiset_has_no_duplicates_conv();
    assert(unique_ids(b)) by {
        assert forall|i: int, j: int|
            0 <= i < b.len() && 0 <= j < b.len() && i != j implies b[i].id != b[j].id by {
            assert(ids_of(b)[i] == b[i].id);
            assert(ids_of(b)[j] == b[j].id);
        }
    }
    // the one ascending id arrangement is shared
    ids_of(a).lemma_sort_by_ensures(u64_leq());
    ids_of(b).lemma_sort_by_ensures(u64_leq());
    vstd::seq_lib::lemma_sorted_unique(sorted_ids(a), sorted_ids(b), u64_leq());
    assert(sorted_ids(a) == sorted_ids(b));
    // and so is the canonical record arrangement
    assert(canon(a) =~= canon(b)) by {
        assert(sorted_ids(a).len() == ids_of(a).len());
        assert forall|j: int| 0 <= j < sorted_ids(a).len() implies canon(a)[j] == canon(
            b,
        )[j] by {
            let id = sorted_ids(a)[j];
            assert(sorted_ids(a).contains(id));
            assert(ids_of(a).contains(id));
            let w = choose|w: int| 0 <= w < ids_of(a).len() && ids_of(a)[w] == id;
            lemma_item_with_at(a, w);
            assert(item_with(a, id) == a[w]);
            assert(a.contains(a[w]));
            assert(a.to_multiset().count(a[w]) > 0);
            assert(b.to_multiset().count(a[w]) > 0);
            assert(b.contains(a[w]));
            let v = choose|v: int| 0 <= v < b.len() && b[v] == a[w];
            assert(b[v].id == id);
            lemma_item_with_at(b, v);
            assert(item_with(b, id) == a[w]);
        }
    }
}

// ---- parent chains, toward the row-count law ----

/// Two records of a unique-id snapshot carrying one id are one record.
proof fn lemma_same_id(t: Seq<ItemModel>, a: ItemModel, b: ItemModel)
    requires
        unique_ids(t),
        t.contains(a),
        t.contains(b),
        a.id == b.id,
    ensures
        a == b,
{
    let i = choose|i: int| 0 <= i < t.len() && t[i] == a;
    let j = choose|j: int| 0 <= j < t.len() && t[j] == b;
    assert(t[i].id == t[j].id);
}

/// `x` is `z` itself or stands on `z`'s parent chain within `k` steps.
spec fn climbs(t: Seq<ItemModel>, z: ItemModel, x: ItemModel, k: nat) -> bool
    decreases k,
{
    z == x || (k > 0 && match z.parent_id {
        Option::Some(p) => has_id(t, p) && climbs(t, item_with(t, p), x, (k - 1) as nat),
        Option::None => false,
    })
}

/// `x` stands strictly above `z`: at least one parent step leads up to it.
spec fn strict_above(t: Seq<ItemModel>, z: ItemModel, x: ItemModel, k: nat) -> bool
    decreases k,
{
    k > 0 && match z.parent_id {
        Option::Some(p) => has_id(t, p) && (item_with(t, p) == x || strict_above(
            t,
            item_with(t, p),
            x,
            (k - 1) as nat,
        )),
        Option::None => false,
    }
}

proof fn lemma_climbs_mono(t: Seq<ItemModel>, z: ItemModel, x: ItemModel, k: nat, k2: nat)
    requires
        climbs(t, z, x, k),
        k <= k2,
    ensures
        climbs(t, z, x, k2),
    decreases k,
{
    if z != x {
        let p = z.parent_id->0;
        lemma_climbs_mono(t, item_with(t, p), x, (k - 1) as nat, (k2 - 1) as nat);
    }
}

proof fn lemma_strict_mono(t: Seq<ItemModel>, z: ItemModel, x: ItemModel, k: nat, k2: nat)
    requires
        strict_above(t, z, x, k),
        k <= k2,
    ensures
        strict_above(t, z, x, k2),
    decreases k,
{
    let p = z.parent_id->0;
    if item_with(t, p) != x {
        lemma_strict_mono(t, item_with(t, p), x, (k - 1) as nat, (k2 - 1) as nat);
    }
}

/// The parent chain is one line: two records above `z` stand one above the
/// other, or are one record.
proof fn lemma_chain_comparable(
    t: Seq<ItemModel>,
    z: ItemModel,
    x: ItemModel,
    y: ItemModel,
    k1: nat,
    k2: nat,
)
    requires
        climbs(t, z, x, k1),
        climbs(t, z, y, k2),
    ensures
        x == y || climbs(t, x, y, k2) || climbs(t, y, x, k1),
    decreases k1,
{
    if z == x {
    } else if z == y {
    } else {
        let p = z.parent_id->0;
        lemma_chain_comparable(t, item_with(t, p), x, y, (k1 - 1) as nat, (k2 - 1) as nat);
        if x != y {
            if climbs(t, x, y, (k2 - 1) as nat) {
                lemma_climbs_mono(t, x, y, (k2 - 1) as nat, k2);
            } else {
                lemma_climbs_mono(t, y, x, (k1 - 1) as nat, k1);
            }
        }
    }
}

/// A climb to another record takes at least one strict step.
proof fn lemma_climbs_strict(t: Seq<ItemModel>, z: ItemModel, x: ItemModel, k: nat)
    requires
        climbs(t, z, x, k),
        z != x,
    ensures
        strict_above(t, z, x, k),
    decreases k,
{
    let p = z.parent_id->0;
    let w = item_with(t, p);
    if w != x {
        lemma_climbs_strict(t, w, x, (k - 1) as nat);
    }
}

/// One more parent step on top of a strict climb stays strict.
proof fn lemma_strict_step_top(
    t: Seq<ItemModel>,
    z: ItemModel,
    c: ItemModel,
    x: ItemModel,
    k: nat,
)
    requires
        strict_above(t, z, c, k),
        c.parent_id == Option::Some(x.id),
        has_id(t, x.id),
        item_with(t, x.id) == x,
    ensures
        strict_above(t, z, x, (k + 1) as nat),
    decreases k,
{
    let p = z.parent_id->0;
    let w = item_with(t, p);
    if w == c {
        assert(strict_above(t, c, x, 1));
        lemma_strict_mono(t, c, x, 1, k);
        assert(strict_above(t, z, x, (k + 1) as nat));
    } else {
        lemma_strict_step_top(t, w, c, x, (k - 1) as nat);
    }
}

/// A climb to a child of `x`, then the step to `x`, stands strictly above.
proof fn lemma_climb_then_parent(
    t: Seq<ItemModel>,
    z: ItemModel,
    c: ItemModel,
    x: ItemModel,
    k: nat,
)
    requires
        climbs(t, z, c, k),
        c.parent_id == Option::Some(x.id),
        has_id(t, x.id),
        item_with(t, x.id) == x,
    ensures
        strict_above(t, z, x, (k + 1) as nat),
{
    if z == c {
        assert(strict_above(t, z, x, 1));
        lemma_strict_mono(t, z, x, 1, (k + 1) as nat);
    } else {
        lemma_climbs_strict(t, z, c, k);
        lemma_strict_step_top(t, z, c, x, k);
    }
}

/// A strict climb is in particular a climb.
proof fn lemma_strict_climbs(t: Seq<ItemModel>, z: ItemModel, x: ItemModel, k: nat)
    requires
        strict_above(t, z, x, k),
    ensures
        climbs(t, z, x, k),
    decreases k,
{
    let p = z.parent_id->0;
    let w = item_with(t, p);
    if w != x {
        lemma_strict_climbs(t, w, x, (k - 1) as nat);
    } else {
        assert(climbs(t, w, x, (k - 1) as nat));
    }
}

/// `z` climbs to one of the records of `sibs`.
spec fn climbs_to_one_of(t: Seq<ItemModel>, sibs: Seq<ItemModel>, z: ItemModel) -> bool {
    exists|i: int, n: nat| 0 <= i < sibs.len() && #[trigger] climbs(t, z, sibs[i], n)
}

/// Every row of the walk climbs to one of the siblings it started from.
proof fn lemma_rows_climb(t: Seq<ItemModel>, sibs: Seq<ItemModel>, prefix: Seq<char>, fuel: nat)
    requires
        unique_ids(t),
        forall|i: int| 0 <= i < sibs.len() ==> t.contains(#[trigger] sibs[i]),
    ensures
        forall|k: int|
            0 <= k < render_list(t, sibs, prefix, fuel).len() ==> climbs_to_one_of(
                t,
                sibs,
                #[trigger] render_list(t, sibs, prefix, fuel)[k].1,
            ),
    decreases fuel, sibs.len(),
{
    broadcast use Seq::lemma_filter_contains_rev;

    let out = render_list(t, sibs, prefix, fuel);
    if sibs.len() > 0 {
        let x = sibs[0];
        let last = sibs.len() == 1;
        let xi = choose|xi: int| 0 <= xi < t.len() && t[xi] == x;
        lemma_item_with_at(t, xi);
        let sub = if fuel == 0 {
            Seq::<(Seq<char>, ItemModel)>::empty()
        } else {
            render_list(t, children_of(t, x.id), prefix + cont_seg(last), (fuel - 1) as nat)
        };
        let kids = children_of(t, x.id);
        if fuel > 0 {
            assert forall|i: int| 0 <= i < kids.len() implies t.contains(#[trigger] kids[i]) by {
                assert(kids.contains(kids[i]));
            }
            lemma_rows_climb(t, kids, prefix + cont_seg(last), (fuel - 1) as nat);
        }
        assert forall|i: int| 0 <= i < sibs.drop_first().len() implies t.contains(
            #[trigger] sibs.drop_first()[i],
        ) by {
            assert(sibs.drop_first()[i] == sibs[i + 1]);
        }
        lemma_rows_climb(t, sibs.drop_first(), prefix, fuel);
        let tail = render_list(t, sibs.drop_first(), prefix, fuel);
        assert forall|k: int| 0 <= k < out.len() implies climbs_to_one_of(
            t,
            sibs,
            #[trigger] out[k].1,
        ) by {
            if k == 0 {
                assert(climbs(t, out[0].1, sibs[0], 0));
            } else if k < 1 + sub.len() {
                assert(out[k] == sub[k - 1]);
                assert(climbs_to_one_of(t, kids, sub[k - 1].1));
                let (i, n) = choose|i: int, n: nat|
                    0 <= i < kids.len() && #[trigger] climbs(t, sub[k - 1].1, kids[i], n);
                assert(kids[i].parent_id == Option::Some(x.id)) by {
                    t.filter_lemma(child_pred(x.id));
                    assert(child_pred(x.id)(kids[i]));
                }
                lemma_climb_then_parent(t, sub[k - 1].1, kids[i], x, n);
                lemma_strict_climbs(t, sub[k - 1].1, x, (n + 1) as nat);
                assert(climbs(t, out[k].1, sibs[0], (n + 1) as nat));
            } else {
                assert(out[k] == tail[k - 1 - sub.len()]);
                assert(climbs_to_one_of(t, sibs.drop_first(), tail[k - 1 - sub.len()].1));
                let (i, n) = choose|i: int, n: nat|
                    0 <= i < sibs.drop_first().len() && #[trigger] climbs(
                        t,
                        tail[k - 1 - sub.len()].1,
                        sibs.drop_first()[i],
                        n,
                    );
                assert(sibs.drop_first()[i] == sibs[i + 1]);
                assert(climbs(t, out[k].1, sibs[i + 1], n));
            }
        }
    }
}

/// A filter of a duplicate-free sequence stays duplicate-free.
proof fn lemma_filter_no_dup<A>(s: Seq<A>, p: spec_fn(A) -> bool)
    requires
        s.no_duplicates(),
    ensures
        s.filter(p).no_duplicates(),
    decreases s.len(),
{
    broadcast use Seq::lemma_filter_push;

    if s.len() > 0 {
        let dl = s.drop_last();
        let last = s.last();
        assert(dl.no_duplicates());
        lemma_filter_no_dup(dl, p);
        assert(dl.push(last) =~= s);
        if p(last) {
            assert(s.filter(p) == dl.filter(p).push(last));
            assert(!dl.filter(p).contains(last)) by {
                if dl.filter(p).contains(last) {
                    dl.lemma_filter_contains_rev(p, last);
                    let i = choose|i: int| 0 <= i < dl.len() && dl[i] == last;
                    assert(s[i] == s[s.len() - 1]);
                }
            }
            let f = dl.filter(p).push(last);
            assert forall|a: int, b: int|
                0 <= a < f.len() && 0 <= b < f.len() && a != b implies f[a] != f[b] by {
                if b == f.len() - 1 {
                    assert(dl.filter(p).contains(f[a]));
                } else if a == f.len() - 1 {
                    assert(dl.filter(p).contains(f[b]));
                }
            }
        } else {
            assert(s.filter(p) == dl.filter(p));
        }
    }
}

/// No sibling stands strictly above any sibling, itself included.
spec fn no_sib_above(t: Seq<ItemModel>, sibs: Seq<ItemModel>) -> bool {
    forall|i: int, j: int, k: nat|
        0 <= i < sibs.len() && 0 <= j < sibs.len() ==> !(#[trigger] strict_above(
            t,
            sibs[i],
            sibs[j],
            k,
        ))
}

/// The rows of one walk carry pairwise distinct ids: no record is rendered
/// twice.
proof fn lemma_rows_distinct(t: Seq<ItemModel>, sibs: Seq<ItemModel>, prefix: Seq<char>, fuel: nat)
    requires
        unique_ids(t),
        forall|i: int| 0 <= i < sibs.len() ==> t.contains(#[trigger] sibs[i]),
        unique_ids(sibs),
        no_sib_above(t, sibs),
    ensures
        forall|k1: int, k2: int|
            #![trigger render_list(t, sibs, prefix, fuel)[k1], render_list(t, sibs, prefix, fuel)[k2]]
            0 <= k1 < k2 < render_list(t, sibs, prefix, fuel).len() ==> render_list(
                t,
                sibs,
                prefix,
                fuel,
            )[k1].1.id != render_list(t, sibs, prefix, fuel)[k2].1.id,
    decreases fuel, sibs.len(),
{
    broadcast use Seq::lemma_filter_contains_rev;

    let out = render_list(t, sibs, prefix, fuel);
    if sibs.len() == 0 {
        return ;
    }
    let x = sibs[0];
    let last = sibs.len() == 1;
    let xi = choose|xi: int| 0 <= xi < t.len() && t[xi] == x;
    lemma_item_with_at(t, xi);
    let kids = children_of(t, x.id);
    let sub = if fuel == 0 {
        Seq::<(Seq<char>, ItemModel)>::empty()
    } else {
        render_list(t, kids, prefix + cont_seg(last), (fuel - 1) as nat)
    };
    let rest = sibs.drop_first();
    let tail = render_list(t, rest, prefix, fuel);
    // facts of the child list
    t.filter_lemma(child_pred(x.id));
    assert forall|i: int| 0 <= i < kids.len() implies t.contains(#[trigger] kids[i]) by {
        assert(kids.contains(kids[i]));
    }
    assert(t.no_duplicates()) by {
        assert forall|a: int, b: int|
            0 <= a < t.len() && 0 <= b < t.len() && a != b implies t[a] != t[b] by {
            assert(t[a].id != t[b].id);
        }
    }
    lemma_filter_no_dup(t, child_pred(x.id));
    assert(unique_ids(kids)) by {
        assert forall|a: int, b: int|
            0 <= a < kids.len() && 0 <= b < kids.len() && a != b implies kids[a].id
            != kids[b].id by {
            if kids[a].id == kids[b].id {
                lemma_same_id(t, kids[a], kids[b]);
            }
        }
    }
    assert(no_sib_above(t, kids)) by {
        assert forall|i: int, j: int, k: nat|
            0 <= i < kids.len() && 0 <= j < kids.len() implies !(#[trigger] strict_above(
            t,
            kids[i],
            kids[j],
            k,
        )) by {
            if strict_above(t, kids[i], kids[j], k) {
                assert(child_pred(x.id)(kids[i]));
                assert(child_pred(x.id)(kids[j]));
                if item_with(t, x.id) == kids[j] {
                    assert(strict_above(t, x, x, 1));
                    assert(!strict_above(t, sibs[0], sibs[0], 1nat));
                } else {
                    assert(strict_above(t, x, kids[j], (k - 1) as nat));
                    lemma_strict_step_top(t, x, kids[j], x, (k - 1) as nat);
                    assert(!strict_above(t, sibs[0], sibs[0], k));
                }
            }
        }
    }
    // facts of the remaining siblings
    assert forall|i: int| 0 <= i < rest.len() implies t.contains(#[trigger] rest[i]) by {
        assert(rest[i] == sibs[i + 1]);
    }
    assert(unique_ids(rest));
    assert(no_sib_above(t, rest)) by {
        assert forall|i: int, j: int, k: nat|
            0 <= i < rest.len() && 0 <= j < rest.len() implies !(#[trigger] strict_above(
            t,
            rest[i],
            rest[j],
            k,
        )) by {
            assert(rest[i] == sibs[i + 1]);
            assert(rest[j] == sibs[j + 1]);
            assert(!strict_above(t, sibs[i + 1], sibs[j + 1], k));
        }
    }
    if fuel > 0 {
        lemma_rows_distinct(t, kids, prefix + cont_seg(last), (fuel - 1) as nat);
        lemma_rows_climb(t, kids, prefix + cont_seg(last), (fuel - 1) as nat);
        lemma_rows_in_snapshot(t, kids, prefix + cont_seg(last), (fuel - 1) as nat);
    }
    lemma_rows_distinct(t, rest, prefix, fuel);
    lemma_rows_climb(t, rest, prefix, fuel);
    lemma_rows_in_snapshot(t, rest, prefix, fuel);
    assert forall|k1: int, k2: int|
        #![trigger out[k1], out[k2]]
        0 <= k1 < k2 < out.len() implies out[k1].1.id != out[k2].1.id by {
        if out[k1].1.id == out[k2].1.id {
            if k1 == 0 {
                if k2 < 1 + sub.len() {
                    let z = sub[k2 - 1].1;
                    assert(out[k2] == sub[k2 - 1]);
                    assert(t.contains(z));
                    lemma_same_id(t, z, x);
                    assert(climbs_to_one_of(t, kids, z));
                    let (i, n) = choose|i: int, n: nat|
                        0 <= i < kids.len() && #[trigger] climbs(t, z, kids[i], n);
                    assert(child_pred(x.id)(kids[i]));
                    lemma_climb_then_parent(t, x, kids[i], x, n);
                    assert(!strict_above(t, sibs[0], sibs[0], (n + 1) as nat));
                } else {
                    let z = tail[k2 - 1 - sub.len()].1;
                    assert(out[k2] == tail[k2 - 1 - sub.len()]);
                    assert(t.contains(z));
                    lemma_same_id(t, z, x);
                    assert(climbs_to_one_of(t, rest, z));
                    let (i, n) = choose|i: int, n: nat|
                        0 <= i < rest.len() && #[trigger] climbs(t, z, rest[i], n);
                    assert(rest[i] == sibs[i + 1]);
                    if x == sibs[i + 1] {
                        assert(sibs[0].id == sibs[i + 1].id);
                    } else {
                        lemma_climbs_strict(t, x, sibs[i + 1], n);
                        assert(!strict_above(t, sibs[0], sibs[i + 1], n));
                    }
                }
            } else if k1 < 1 + sub.len() {
                if k2 < 1 + sub.len() {
                    assert(out[k1] == sub[k1 - 1]);
                    assert(out[k2] == sub[k2 - 1]);
                } else {
                    let z1 = sub[k1 - 1].1;
                    let z2 = tail[k2 - 1 - sub.len()].1;
                    assert(out[k1] == sub[k1 - 1]);
                    assert(out[k2] == tail[k2 - 1 - sub.len()]);
                    assert(t.contains(z1));
                    assert(t.contains(z2));
                    lemma_same_id(t, z1, z2);
                    assert(climbs_to_one_of(t, kids, z1));
                    let (i, n) = choose|i: int, n: nat|
                        0 <= i < kids.len() && #[trigger] climbs(t, z1, kids[i], n);
                    assert(child_pred(x.id)(kids[i]));
                    lemma_climb_then_parent(t, z1, kids[i], x, n);
                    lemma_strict_climbs(t, z1, x, (n + 1) as nat);
                    assert(climbs_to_one_of(t, rest, z2));
                    let (j, n2) = choose|j: int, n2: nat|
                        0 <= j < rest.len() && #[trigger] climbs(t, z2, rest[j], n2);
                    assert(rest[j] == sibs[j + 1]);
                    lemma_chain_comparable(t, z1, x, sibs[j + 1], (n + 1) as nat, n2);
                    if x == sibs[j + 1] {
                        assert(sibs[0].id == sibs[j + 1].id);
                    } else if climbs(t, x, sibs[j + 1], n2) {
                        lemma_climbs_strict(t, x, sibs[j + 1], n2);
                        assert(!strict_above(t, sibs[0], sibs[j + 1], n2));
                    } else {
                        lemma_climbs_strict(t, sibs[j + 1], x, (n + 1) as nat);
                        assert(!strict_above(t, sibs[j + 1], sibs[0], (n + 1) as nat));
                    }
                }
            } else {
                assert(out[k1] == tail[k1 - 1 - sub.len()]);
                assert(out[k2] == tail[k2 - 1 - sub.len()]);
            }
        }
    }
}

/// A flat walk (no recursion budget) has one row per sibling.
proof fn lemma_flat_len(t: Seq<ItemModel>, sibs: Seq<ItemModel>, prefix: Seq<char>)
    ensures
        render_list(t, sibs, prefix, 0).len() == sibs.len(),
    decreases sibs.len(),
{
    if sibs.len() > 0 {
        lemma_flat_len(t, sibs.drop_first(), prefix);
    }
}

/// Two complementary filters split a sequence.
proof fn lemma_filter_split<A>(s: Seq<A>, p: spec_fn(A) -> bool, q: spec_fn(A) -> bool)
    requires
        forall|a: A| #[trigger] q(a) == !p(a),
    ensures
        s.filter(p).len() + s.filter(q).len() == s.len(),
    decreases s.len(),
{
    broadcast use Seq::lemma_filter_push;

    if s.len() > 0 {
        let dl = s.drop_last();
        lemma_filter_split(dl, p, q);
        assert(dl.push(s.last()) =~= s);
        assert(q(s.last()) == !p(s.last()));
    }
}

/// Membership test for the records that already have a row in `out`.
spec fn emit_pred(out: Seq<(Seq<char>, ItemModel)>) -> spec_fn(ItemModel) -> bool {
    |x: ItemModel| emitted(out, x.id)
}

/// The records carried by the rows of `out`.
spec fn records_of(out: Seq<(Seq<char>, ItemModel)>) -> Seq<ItemModel> {
    out.map_values(|p: (Seq<char>, ItemModel)| p.1)
}

/// Law: the rendering holds exactly one row per input record -- none is
/// dropped and none is repeated, whatever the parent references look like.
pub proof fn lemma_one_row_per_record(m: Seq<ItemModel>, with_tag: bool)
    requires
        unique_ids(m),
    ensures
        forest_render(m, with_tag).len() == m.len(),
{
    broadcast use Seq::lemma_filter_contains_rev;

    lemma_canon_elements(m);
    lemma_canon_unique(m);
    let t = canon(m);
    let roots = t.filter(root_pred(t));
    let main = render_list(t, roots, Seq::empty(), t.len());
    let restseq = t.filter(rest_pred(main));
    t.filter_lemma(root_pred(t));
    assert forall|i: int| 0 <= i < roots.len() implies t.contains(#[trigger] roots[i]) by {
        assert(roots.contains(roots[i]));
    }
    assert(t.no_duplicates()) by {
        assert forall|a: int, b: int|
            0 <= a < t.len() && 0 <= b < t.len() && a != b implies t[a] != t[b] by {
            assert(t[a].id != t[b].id);
        }
    }
    lemma_filter_no_dup(t, root_pred(t));
    assert(unique_ids(roots)) by {
        assert forall|a: int, b: int|
            0 <= a < roots.len() && 0 <= b < roots.len() && a != b implies roots[a].id
            != roots[b].id by {
            if roots[a].id == roots[b].id {
                lemma_same_id(t, roots[a], roots[b]);
            }
        }
    }
    assert(no_sib_above(t, roots)) by {
        assert forall|i: int, j: int, k: nat|
            0 <= i < roots.len() && 0 <= j < roots.len() implies !(#[trigger] strict_above(
            t,
            roots[i],
            roots[j],
            k,
        )) by {
            if strict_above(t, roots[i], roots[j], k) {
                assert(root_pred(t)(roots[i]));
                match roots[i].parent_id {
                    Option::Some(p) => {
                        assert(has_id(t, p));
                    },
                    Option::None => {},
                }
            }
        }
    }
    lemma_rows_distinct(t, roots, Seq::empty(), t.len());
    lemma_rows_in_snapshot(t, roots, Seq::empty(), t.len());
    // the emitted records are exactly the records of the main rows
    let mm = records_of(main);
    let ef = t.filter(emit_pred(main));
    assert(mm.no_duplicates()) by {
        assert forall|a: int, b: int|
            0 <= a < mm.len() && 0 <= b < mm.len() && a != b implies mm[a] != mm[b] by {
            if a < b {
                assert(main[a].1.id != main[b].1.id);
            } else {
                assert(main[b].1.id != main[a].1.id);
            }
        }
    }
    lemma_filter_no_dup(t, emit_pred(main));
    t.filter_lemma(emit_pred(main));
    assert(ef.no_duplicates());
    assert forall|e: ItemModel| true implies (mm.contains(e) == ef.contains(e)) by {
        if mm.contains(e) {
            let k = choose|k: int| 0 <= k < mm.len() && mm[k] == e;
            assert(main[k].1 == e);
            assert(emitted(main, e.id));
            assert(emit_pred(main)(e));
            assert(t.contains(e));
            let w = choose|w: int| 0 <= w < t.len() && t[w] == e;
            t.lemma_filter_contains(emit_pred(main), w);
            assert(ef.contains(e));
        }
        if ef.contains(e) {
            assert(t.contains(e));
            assert(emit_pred(main)(e)) by {
                let v = choose|v: int| 0 <= v < ef.len() && ef[v] == e;
                assert(emit_pred(main)(ef[v]));
            }
            let k = choose|k: int| 0 <= k < main.len() && main[k].1.id == e.id;
            assert(t.contains(main[k].1));
            lemma_same_id(t, main[k].1, e);
            assert(mm[k] == e);
            assert(mm.contains(e));
        }
    }
    mm.lemma_multiset_has_no_duplicates();
    ef.lemma_multiset_has_no_duplicates();
    mm.to_multiset_ensures();
    ef.to_multiset_ensures();
    assert(mm.to_multiset() =~= ef.to_multiset()) by {
        assert forall|e: ItemModel| true implies mm.to_multiset().count(e) == ef.to_multiset().count(
            e,
        ) by {
            if mm.contains(e) {
            } else {
                assert(mm.to_multiset().count(e) == 0) by {
                    if mm.to_multiset().count(e) > 0 {
                        assert(mm.contains(e));
                    }
                }
                assert(ef.to_multiset().count(e) == 0) by {
                    if ef.to_multiset().count(e) > 0 {
                        assert(ef.contains(e));
                    }
                }
            }
        }
    }
    assert(mm.len() == ef.len());
    assert(main.len() == ef.len());
    // the leftover rows are one per not-yet-rendered record
    lemma_flat_len(t, restseq, Seq::empty());
    assert forall|a: ItemModel| true implies #[trigger] rest_pred(main)(a) == !emit_pred(main)(
        a,
    ) by {}
    lemma_filter_split(t, emit_pred(main), rest_pred(main));
    assert(left_render(m).len() == main.len() + restseq.len());
    assert(left_render(m).len() == t.len());
}

} // verus!
