//! The text side of the data readers: transposing delimited lines, counting
//! occurrences, and histogram bin labels.
use vstd::prelude::*;
use crate::text::{
    chars_of, debug_string, fields, fields_of, float_literal_check, is_float_literal, join,
    nonempty, split_chars, split_on, str_debug, string_from_chars, string_views, trim_chars,
    decimal, push_str, sub_chars, trim, views,
};

verus! {

/// The rows of non-empty lines, each split into trimmed fields.
pub open spec fn grid_of(lines: Seq<Seq<char>>, d: char) -> Seq<Seq<Seq<char>>> {
    nonempty(lines).map_values(|l: Seq<char>| fields(l, d))
}

/// The largest number of fields in a row.
pub open spec fn max_fields(rows: Seq<Seq<Seq<char>>>) -> nat
    decreases rows.len(),
{
    if rows.len() == 0 {
        0
    } else {
        let m = max_fields(rows.drop_last());
        if rows.last().len() > m { rows.last().len() } else { m }
    }
}

/// Column `col` of the grid; rows that are too short give an empty field.
pub open spec fn column(rows: Seq<Seq<Seq<char>>>, col: int) -> Seq<Seq<char>> {
    rows.map_values(|r: Seq<Seq<char>>| if col < r.len() { r[col] } else { Seq::<char>::empty() })
}

/// The transposed lines: line `c` holds column `c` of the grid, joined by the delimiter.
pub open spec fn transpose_spec(lines: Seq<Seq<char>>, d: char) -> Seq<Seq<char>> {
    let g = grid_of(lines, d);
    Seq::new(max_fields(g), |c: int| join(column(g, c), seq![d]))
}

/// Rows and columns swapped: empty lines are skipped, fields are trimmed,
/// and short rows contribute empty fields.
pub fn transpose_lines(lines: &[String], delimiter: char) -> (r: Vec<String>)
    ensures
        string_views(r@) == transpose_spec(string_views(lines@), delimiter),
{
    let ghost all = string_views(lines@);
    let mut grid: Vec<Vec<Vec<char>>> = Vec::new();
    let mut i: usize = 0;
    while i < lines.len()
        invariant
            i <= lines@.len(),
            all == string_views(lines@),
            grid@.map_values(|r: Vec<Vec<char>>| views(r@)) =~= grid_of(all.take(i as int), delimiter),
        decreases lines.len() - i,
    {
        let l = chars_of(lines[i].as_str());
        proof {
            assert(all.take(i + 1).drop_last() =~= all.take(i as int));
            assert(all.take(i + 1).last() == l@);
        }
        let ghost before = grid@;
        if l.len() > 0 {
            let f = fields_of(&l, delimiter);
            grid.push(f);
            proof {
                assert(nonempty(all.take(i + 1)) == nonempty(all.take(i as int)).push(l@));
                assert(grid_of(all.take(i + 1), delimiter) =~= grid_of(all.take(i as int), delimiter).push(fields(l@, delimiter)));
                assert(grid@.map_values(|r: Vec<Vec<char>>| views(r@)) =~= before.map_values(|r: Vec<Vec<char>>| views(r@)).push(views(f@)));
            }
        } else {
            proof {
                assert(nonempty(all.take(i + 1)) == nonempty(all.take(i as int)));
            }
        }
        i = i + 1;
    }
    proof { assert(all.take(lines@.len() as int) =~= all); }
    let ghost g = grid_of(all, delimiter);
    let mut max_cols: usize = 0;
    let mut k: usize = 0;
    while k < grid.len()
        invariant
            k <= grid@.len(),
            grid@.map_values(|r: Vec<Vec<char>>| views(r@)) == g,
            max_cols == max_fields(g.take(k as int)),
        decreases grid.len() - k,
    {
        proof {
            assert(g.take(k + 1).drop_last() =~= g.take(k as int));
            assert(g[k as int].len() == grid@[k as int]@.len());
        }
        if grid[k].len() > max_cols {
            max_cols = grid[k].len();
        }
        k = k + 1;
    }
    proof { assert(g.take(grid@.len() as int) =~= g); }
    let mut out: Vec<String> = Vec::new();
    let mut col: usize = 0;
    while col < max_cols
        invariant
            col <= max_cols,
            max_cols == max_fields(g),
            grid@.map_values(|r: Vec<Vec<char>>| views(r@)) == g,
            string_views(out@) =~= Seq::new(col as nat, |c: int| join(column(g, c), seq![delimiter])),
        decreases max_cols - col,
    {
        let mut line: Vec<char> = Vec::new();
        let mut r: usize = 0;
        while r < grid.len()
            invariant
                r <= grid@.len(),
                grid@.map_values(|r: Vec<Vec<char>>| views(r@)) == g,
                line@ == join(column(g, col as int).take(r as int), seq![delimiter]),
            decreases grid.len() - r,
        {
            let ghost parts = column(g, col as int).take(r + 1);
            proof {
                assert(parts.drop_last() =~= column(g, col as int).take(r as int));
                assert(g[r as int] == views(grid@[r as int]@));
            }
            if r > 0 {
                line.push(delimiter);
            }
            if col < grid[r].len() {
                let mut piece = sub_chars(&grid[r][col], 0, grid[r][col].len());
                proof {
                    assert(grid@[r as int]@[col as int]@.subrange(0, grid@[r as int]@[col as int]@.len() as int) =~= grid@[r as int]@[col as int]@);
                    assert(views(grid@[r as int]@)[col as int] == grid@[r as int]@[col as int]@);
                }
                line.append(&mut piece);
            }
            proof {
                if r == 0 {
                    assert(line@ =~= parts[0]);
                } else {
                    assert(line@ =~= join(parts.drop_last(), seq![delimiter]) + seq![delimiter] + parts.last());
                }
            }
            r = r + 1;
        }
        proof { assert(column(g, col as int).take(grid@.len() as int) =~= column(g, col as int)); }
        let s = string_from_chars(&line);
        let ghost before = out@;
        out.push(s);
        proof {
            assert(string_views(out@) =~= string_views(before).push(s@));
        }
        col = col + 1;
    }
    out
}

} // verus!

verus! {

/// Lexicographic order on character sequences (the order of `String::cmp`,
/// since UTF-8 keeps code point order byte by byte).
pub open spec fn seq_lt(a: Seq<char>, b: Seq<char>) -> bool
    decreases a.len(),
{
    if a.len() == 0 {
        b.len() > 0
    } else if b.len() == 0 {
        false
    } else if a[0] != b[0] {
        a[0] < b[0]
    } else {
        seq_lt(a.drop_first(), b.drop_first())
    }
}

pub proof fn lemma_seq_lt_irreflexive(a: Seq<char>)
    ensures
        !seq_lt(a, a),
    decreases a.len(),
{
    if a.len() > 0 {
        lemma_seq_lt_irreflexive(a.drop_first());
    }
}

pub proof fn lemma_seq_lt_total(a: Seq<char>, b: Seq<char>)
    ensures
        a != b ==> (seq_lt(a, b) || seq_lt(b, a)),
        !(seq_lt(a, b) && seq_lt(b, a)),
    decreases a.len(),
{
    if a.len() > 0 && b.len() > 0 {
        lemma_seq_lt_total(a.drop_first(), b.drop_first());
        if a[0] == b[0] && a != b {
            assert(a.drop_first() != b.drop_first()) by {
                if a.drop_first() == b.drop_first() {
                    assert(a =~= seq![a[0]] + a.drop_first());
                    assert(b =~= seq![b[0]] + b.drop_first());
                }
            }
        }
    } else if a.len() == 0 && b.len() == 0 {
        assert(a =~= b);
    }
}

pub proof fn lemma_seq_lt_transitive(a: Seq<char>, b: Seq<char>, c: Seq<char>)
    requires
        seq_lt(a, b),
        seq_lt(b, c),
    ensures
        seq_lt(a, c),
    decreases a.len(),
{
    if a.len() > 0 && b.len() > 0 && c.len() > 0 {
        if a[0] == b[0] && b[0] == c[0] {
            lemma_seq_lt_transitive(a.drop_first(), b.drop_first(), c.drop_first());
        }
    }
}

/// Whether the entry `(la, ca)` comes before `(lb, cb)`: higher count first,
/// then alphabetical.
pub open spec fn ranks_before(la: Seq<char>, ca: nat, lb: Seq<char>, cb: nat) -> bool {
    ca > cb || (ca == cb && seq_lt(la, lb))
}

/// Number of times `k` occurs in `keys`.
pub open spec fn occurrences(keys: Seq<Seq<char>>, k: Seq<char>) -> nat
    decreases keys.len(),
{
    if keys.len() == 0 {
        0
    } else {
        occurrences(keys.drop_last(), k) + if keys.last() == k { 1nat } else { 0nat }
    }
}

pub open spec fn sum_counts(s: Seq<u64>) -> nat
    decreases s.len(),
{
    if s.len() == 0 { 0 } else { sum_counts(s.drop_last()) + (s.last() as nat) }
}

/// The keys counted from the lines: the first field (trimmed) of every
/// non-empty line, after the header line if there is one; `None` when a
/// header is expected but there is no non-empty line.
pub open spec fn count_keys(lines: Seq<Seq<char>>, d: char, has_headers: bool) -> Option<Seq<Seq<char>>> {
    let ne = nonempty(lines);
    if has_headers && ne.len() == 0 {
        None
    } else {
        let body = if has_headers { ne.drop_first() } else { ne };
        Some(body.map_values(|l: Seq<char>| trim(split_on(l, d)[0])))
    }
}

/// `labels`/`counts` tally `keys`: every distinct key once with its number of
/// occurrences, ordered by count (descending) and then alphabetically.
pub open spec fn is_tally(keys: Seq<Seq<char>>, labels: Seq<Seq<char>>, counts: Seq<u64>) -> bool {
    &&& labels.len() == counts.len()
    &&& forall|i: int, j: int| 0 <= i < j < labels.len() ==> labels[i] != labels[j]
    &&& forall|i: int| 0 <= i < labels.len() ==> #[trigger] keys.contains(labels[i])
        && counts[i] == occurrences(keys, labels[i])
    &&& forall|k: Seq<char>| keys.contains(k) ==> #[trigger] labels.contains(k)
    &&& forall|i: int, j: int| 0 <= i < j < labels.len() ==> ranks_before(
        #[trigger] labels[i], counts[i] as nat, #[trigger] labels[j], counts[j] as nat)
}

/// Distinct values with their occurrence counts, most frequent first.
#[derive(Debug)]
pub struct Tally {
    pub labels: Vec<String>,
    pub counts: Vec<u64>,
}

fn lex_lt(a: &Vec<char>, b: &Vec<char>) -> (r: bool)
    ensures
        r == seq_lt(a@, b@),
{
    let mut i: usize = 0;
    proof {
        assert(a@.skip(0) =~= a@);
        assert(b@.skip(0) =~= b@);
    }
    while i < a.len() && i < b.len() && a[i] == b[i]
        invariant
            i <= a@.len(),
            i <= b@.len(),
            seq_lt(a@, b@) == seq_lt(a@.skip(i as int), b@.skip(i as int)),
        decreases a.len() - i,
    {
        proof {
            assert(a@.skip(i as int).drop_first() =~= a@.skip(i + 1));
            assert(b@.skip(i as int).drop_first() =~= b@.skip(i + 1));
        }
        i = i + 1;
    }
    if i == a.len() {
        i < b.len()
    } else if i == b.len() {
        false
    } else {
        a[i] < b[i]
    }
}

fn rank_lt(la: &Vec<char>, ca: u64, lb: &Vec<char>, cb: u64) -> (r: bool)
    ensures
        r == ranks_before(la@, ca as nat, lb@, cb as nat),
{
    ca > cb || (ca == cb && lex_lt(la, lb))
}

proof fn lemma_occurrences_push(keys: Seq<Seq<char>>, x: Seq<char>, k: Seq<char>)
    ensures
        occurrences(keys.push(x), k) == occurrences(keys, k) + if x == k { 1nat } else { 0nat },
{
    assert(keys.push(x).drop_last() =~= keys);
}

proof fn lemma_occurrences_absent(keys: Seq<Seq<char>>, k: Seq<char>)
    requires
        !keys.contains(k),
    ensures
        occurrences(keys, k) == 0,
    decreases keys.len(),
{
    if keys.len() > 0 {
        assert(!keys.drop_last().contains(k)) by {
            if keys.drop_last().contains(k) {
                let j = choose|j: int| 0 <= j < keys.drop_last().len() && keys.drop_last()[j] == k;
                assert(keys[j] == k);
            }
        }
        assert(keys.last() != k) by { if keys.last() == k { assert(keys[keys.len() - 1] == k); } }
        lemma_occurrences_absent(keys.drop_last(), k);
    }
}

proof fn lemma_sum_update(s: Seq<u64>, j: int, v: u64)
    requires
        0 <= j < s.len(),
    ensures
        sum_counts(s.update(j, v)) == sum_counts(s) - s[j] + v,
    decreases s.len(),
{
    if j < s.len() - 1 {
        assert(s.update(j, v).drop_last() =~= s.drop_last().update(j, v));
        lemma_sum_update(s.drop_last(), j, v);
    } else {
        assert(s.update(j, v).drop_last() =~= s.drop_last());
    }
}

proof fn lemma_sum_insert(s: Seq<u64>, j: int, v: u64)
    requires
        0 <= j <= s.len(),
    ensures
        sum_counts(s.insert(j, v)) == sum_counts(s) + v,
    decreases s.len(),
{
    if j < s.len() {
        assert(s.insert(j, v).drop_last() =~= s.drop_last().insert(j, v));
        lemma_sum_insert(s.drop_last(), j, v);
    } else {
        assert(s.insert(j, v) =~= s.push(v));
        assert(s.push(v).drop_last() =~= s);
    }
}

proof fn lemma_sum_push(s: Seq<u64>, v: u64)
    ensures
        sum_counts(s.push(v)) == sum_counts(s) + v,
{
    assert(s.push(v).drop_last() =~= s);
}

fn find_label(labels: &Vec<Vec<char>>, key: &Vec<char>) -> (r: Option<usize>)
    ensures
        r matches Some(j) ==> j < labels@.len() && labels@[j as int]@ == key@,
        r is None ==> forall|j: int| 0 <= j < labels@.len() ==> labels@[j]@ != key@,
{
    let mut j: usize = 0;
    while j < labels.len()
        invariant
            j <= labels@.len(),
            forall|q: int| 0 <= q < j ==> labels@[q]@ != key@,
        decreases labels.len() - j,
    {
        if crate::text::chars_eq(&labels[j], key) {
            return Some(j);
        }
        j = j + 1;
    }
    None
}

/// The trimmed first field of every non-empty line.
fn first_fields(lines: &[String], delimiter: char) -> (r: Vec<Vec<char>>)
    ensures
        views(r@) == nonempty(string_views(lines@)).map_values(|l: Seq<char>| trim(split_on(l, delimiter)[0])),
{
    let ghost all = string_views(lines@);
    let mut firsts: Vec<Vec<char>> = Vec::new();
    let mut i: usize = 0;
    while i < lines.len()
        invariant
            i <= lines@.len(),
            all == string_views(lines@),
            views(firsts@) =~= nonempty(all.take(i as int)).map_values(|l: Seq<char>| trim(split_on(l, delimiter)[0])),
        decreases lines.len() - i,
    {
        let l = chars_of(lines[i].as_str());
        proof {
            assert(all.take(i + 1).drop_last() =~= all.take(i as int));
            assert(all.take(i + 1).last() == l@);
        }
        let ghost before = firsts@;
        if l.len() > 0 {
            let pieces = crate::text::split_chars(&l, delimiter);
            proof { assert(views(pieces@)[0] == pieces@[0]@); }
            let f = crate::text::trim_chars(&pieces[0]);
            firsts.push(f);
            proof {
                assert(nonempty(all.take(i + 1)) == nonempty(all.take(i as int)).push(l@));
                assert(views(firsts@) =~= views(before).push(f@));
            }
        } else {
            proof { assert(nonempty(all.take(i + 1)) == nonempty(all.take(i as int))); }
        }
        i = i + 1;
    }
    proof { assert(all.take(lines@.len() as int) =~= all); }
    firsts
}

/// `labels`/`counts` tally `keys` in order of first appearance (no ordering claim).
pub open spec fn tallies(keys: Seq<Seq<char>>, labels: Seq<Seq<char>>, counts: Seq<u64>) -> bool {
    &&& labels.len() == counts.len()
    &&& forall|a: int, b: int| 0 <= a < b < labels.len() ==> labels[a] != labels[b]
    &&& forall|a: int| 0 <= a < labels.len() ==> #[trigger] keys.contains(labels[a])
    &&& forall|a: int| 0 <= a < labels.len() ==> #[trigger] counts[a] == occurrences(keys, labels[a])
    &&& forall|a: int| 0 <= a < labels.len() ==> #[trigger] counts[a] <= keys.len()
    &&& forall|x: Seq<char>| keys.contains(x) ==> #[trigger] labels.contains(x)
    &&& sum_counts(counts) == keys.len()
}

/// Tally `keys[start..]` in order of first appearance.
fn tally(keys: &Vec<Vec<char>>, start: usize) -> (r: (Vec<Vec<char>>, Vec<u64>))
    requires
        start <= keys@.len(),
    ensures
        tallies(views(keys@).skip(start as int), views(r.0@), r.1@),
{
    let ghost ks = views(keys@).skip(start as int);
    let mut labels: Vec<Vec<char>> = Vec::new();
    let mut counts: Vec<u64> = Vec::new();
    let mut k: usize = start;
    proof {
        assert(ks.take(0) =~= Seq::<Seq<char>>::empty());
        assert(views(labels@) =~= Seq::<Seq<char>>::empty());
    }
    while k < keys.len()
        invariant
            start <= k <= keys@.len(),
            ks == views(keys@).skip(start as int),
            tallies(ks.take(k - start), views(labels@), counts@),
        decreases keys.len() - k,
    {
        let ghost done = ks.take(k - start);
        let ghost key = keys@[k as int]@;
        let ghost old_labels = views(labels@);
        let ghost old_counts = counts@;
        proof {
            assert(ks.take(k - start + 1) =~= done.push(key));
            assert(views(keys@)[k as int] == keys@[k as int]@);
        }
        match find_label(&labels, &keys[k]) {
            Some(j) => {
                proof { assert(old_counts[j as int] <= done.len()); }
                let c = counts[j] + 1;
                counts.set(j, c);
                proof {
                    lemma_sum_update(old_counts, j as int, c);
                    assert(views(labels@)[j as int] == key);
                    assert forall|a: int| 0 <= a < old_labels.len() implies
                        #[trigger] counts@[a] == occurrences(done.push(key), old_labels[a]) by {
                        lemma_occurrences_push(done, key, old_labels[a]);
                    }
                    assert forall|a: int| 0 <= a < old_labels.len() implies
                        #[trigger] done.push(key).contains(old_labels[a]) by {
                        assert(done.contains(old_labels[a]));
                        let w = choose|w: int| 0 <= w < done.len() && done[w] == old_labels[a];
                        assert(done.push(key)[w] == old_labels[a]);
                    }
                    assert forall|x: Seq<char>| done.push(key).contains(x) implies #[trigger] old_labels.contains(x) by {
                        let w = choose|w: int| 0 <= w < done.len() + 1 && done.push(key)[w] == x;
                        if w < done.len() {
                            assert(done[w] == x);
                        } else {
                            assert(old_labels[j as int] == x);
                        }
                    }
                    assert(tallies(done.push(key), views(labels@), counts@));
                }
            },
            None => {
                let f = sub_chars(&keys[k], 0, keys[k].len());
                proof { assert(f@ =~= key); }
                labels.push(f);
                counts.push(1);
                proof {
                    let nl = views(labels@);
                    assert(nl =~= old_labels.push(key));
                    lemma_sum_push(old_counts, 1);
                    assert(!done.contains(key)) by {
                        if done.contains(key) {
                            assert(old_labels.contains(key));
                            let q = choose|q: int| 0 <= q < old_labels.len() && old_labels[q] == key;
                            assert(labels@[q]@ == key);
                        }
                    }
                    lemma_occurrences_absent(done, key);
                    assert forall|a: int| 0 <= a < nl.len() implies
                        #[trigger] counts@[a] == occurrences(done.push(key), nl[a]) by {
                        lemma_occurrences_push(done, key, nl[a]);
                    }
                    assert forall|a: int| 0 <= a < nl.len() implies
                        #[trigger] done.push(key).contains(nl[a]) by {
                        if a < old_labels.len() {
                            assert(done.contains(old_labels[a]));
                            let w = choose|w: int| 0 <= w < done.len() && done[w] == old_labels[a];
                            assert(done.push(key)[w] == nl[a]);
                        } else {
                            assert(done.push(key)[done.len() as int] == key);
                        }
                    }
                    assert forall|x: Seq<char>| done.push(key).contains(x) implies #[trigger] nl.contains(x) by {
                        let w = choose|w: int| 0 <= w < done.len() + 1 && done.push(key)[w] == x;
                        if w < done.len() {
                            assert(done[w] == x);
                            assert(done.contains(x));
                            assert(old_labels.contains(x));
                            let q = choose|q: int| 0 <= q < old_labels.len() && old_labels[q] == x;
                            assert(nl[q] == x);
                        } else {
                            assert(nl[old_labels.len() as int] == x);
                        }
                    }
                    assert forall|a: int, b: int| 0 <= a < b < nl.len() implies nl[a] != nl[b] by {
                        if b == old_labels.len() {
                            assert(old_labels.contains(nl[a]) ==> done.contains(nl[a]));
                            assert(old_labels[a] == nl[a]);
                            assert(old_labels.contains(nl[a]));
                        }
                    }
                    assert(tallies(done.push(key), nl, counts@));
                }
            },
        }
        k = k + 1;
    }
    proof { assert(ks.take(keys@.len() - start) =~= ks); }
    (labels, counts)
}

/// The entry `(l, c)` occurs among the pairs `(lb[q], cb[q])`.
pub open spec fn entry_in(l: Seq<char>, c: u64, lb: Seq<Seq<char>>, cb: Seq<u64>) -> bool {
    exists|q: int| 0 <= q < lb.len() && lb[q] == l && cb[q] == c
}

/// The pairs `(la[p], ca[p])` and `(lb[q], cb[q])` are the same entries.
pub open spec fn same_entries(la: Seq<Seq<char>>, ca: Seq<u64>, lb: Seq<Seq<char>>, cb: Seq<u64>) -> bool {
    &&& forall|p: int| 0 <= p < la.len() ==> #[trigger] entry_in(la[p], ca[p], lb, cb)
    &&& forall|q: int| 0 <= q < lb.len() ==> #[trigger] entry_in(lb[q], cb[q], la, ca)
}

/// Insertion sort of the entries by count (descending), then alphabetically.
fn sort_tally(labels: &Vec<Vec<char>>, counts: &Vec<u64>) -> (r: (Vec<Vec<char>>, Vec<u64>))
    requires
        labels@.len() == counts@.len(),
        forall|a: int, b: int| 0 <= a < b < labels@.len() ==> labels@[a]@ != labels@[b]@,
    ensures
        r.0@.len() == labels@.len(),
        r.1@.len() == labels@.len(),
        same_entries(views(r.0@), r.1@, views(labels@), counts@),
        forall|a: int, b: int| 0 <= a < b < r.0@.len() ==> ranks_before(
            #[trigger] r.0@[a]@, r.1@[a] as nat, #[trigger] r.0@[b]@, r.1@[b] as nat),
        sum_counts(r.1@) == sum_counts(counts@),
{
    let ghost ls = views(labels@);
    let mut out_labels: Vec<Vec<char>> = Vec::new();
    let mut out_counts: Vec<u64> = Vec::new();
    let mut n: usize = 0;
    while n < labels.len()
        invariant
            n <= labels@.len(),
            ls == views(labels@),
            labels@.len() == counts@.len(),
            out_labels@.len() == out_counts@.len(),
            out_labels@.len() == n,
            forall|a: int, b: int| 0 <= a < b < labels@.len() ==> labels@[a]@ != labels@[b]@,
            same_entries(views(out_labels@), out_counts@, ls.take(n as int), counts@.take(n as int)),
            forall|a: int, b: int| 0 <= a < b < out_labels@.len() ==> ranks_before(
                #[trigger] out_labels@[a]@, out_counts@[a] as nat, #[trigger] out_labels@[b]@, out_counts@[b] as nat),
            sum_counts(out_counts@) == sum_counts(counts@.take(n as int)),
        decreases labels.len() - n,
    {
        let c = counts[n];
        let mut pos: usize = 0;
        while pos < out_labels.len() && !rank_lt(&labels[n], c, &out_labels[pos], out_counts[pos])
            invariant
                pos <= out_labels@.len(),
                out_labels@.len() == out_counts@.len(),
                c == counts@[n as int],
                n < labels@.len(),
                forall|p: int| 0 <= p < pos ==> !ranks_before(labels@[n as int]@, c as nat, #[trigger] out_labels@[p]@, out_counts@[p] as nat),
            decreases out_labels.len() - pos,
        {
            pos = pos + 1;
        }
        let ghost ol = views(out_labels@);
        let ghost oc = out_counts@;
        let ghost e = labels@[n as int]@;
        let lab = sub_chars(&labels[n], 0, labels[n].len());
        proof {
            assert(lab@ =~= e);
            assert(ls[n as int] == e);
        }
        out_labels.insert(pos, lab);
        out_counts.insert(pos, c);
        proof {
            let nl = views(out_labels@);
            assert(nl =~= ol.insert(pos as int, e));
            lemma_insert_sorted(ol, oc, pos as int, e, c as nat, ls.take(n as int), counts@.take(n as int));
            lemma_sum_insert(oc, pos as int, c);
            assert(counts@.take(n + 1).drop_last() =~= counts@.take(n as int));
            assert(ls.take(n + 1) =~= ls.take(n as int).push(e));
            assert(counts@.take(n + 1) =~= counts@.take(n as int).push(c));
            assert forall|a: int, b: int| 0 <= a < b < out_labels@.len() implies ranks_before(
                #[trigger] out_labels@[a]@, out_counts@[a] as nat, #[trigger] out_labels@[b]@, out_counts@[b] as nat) by {
                assert(nl[a] == out_labels@[a]@ && nl[b] == out_labels@[b]@);
            }
            assert forall|q: int| 0 <= q < n implies ls.take(n as int)[q] != e by {
                assert(labels@[q]@ != labels@[n as int]@);
            }
            lemma_insert_same_entries(ol, oc, pos as int, e, c, ls.take(n as int), counts@.take(n as int));
        }
        n = n + 1;
    }
    proof {
        assert(counts@.take(labels@.len() as int) =~= counts@);
        assert(ls.take(labels@.len() as int) =~= ls);
        let nl = views(out_labels@);
        assert forall|a: int, b: int| 0 <= a < b < out_labels@.len() implies ranks_before(
            #[trigger] out_labels@[a]@, out_counts@[a] as nat, #[trigger] out_labels@[b]@, out_counts@[b] as nat) by {}
    }
    (out_labels, out_counts)
}

proof fn lemma_insert_same_entries(ol: Seq<Seq<char>>, oc: Seq<u64>, pos: int, e: Seq<char>, c: u64,
    src_l: Seq<Seq<char>>, src_c: Seq<u64>)
    requires
        ol.len() == oc.len(),
        src_l.len() == src_c.len(),
        0 <= pos <= ol.len(),
        same_entries(ol, oc, src_l, src_c),
    ensures
        same_entries(ol.insert(pos, e), oc.insert(pos, c), src_l.push(e), src_c.push(c)),
{
    let nl = ol.insert(pos, e);
    let nc = oc.insert(pos, c);
    let sl = src_l.push(e);
    let sc = src_c.push(c);
    assert forall|p: int| 0 <= p < nl.len() implies #[trigger] entry_in(nl[p], nc[p], sl, sc) by {
        if p < pos {
            assert(entry_in(ol[p], oc[p], src_l, src_c));
            let q = choose|q: int| 0 <= q < src_l.len() && src_l[q] == ol[p] && src_c[q] == oc[p];
            assert(sl[q] == nl[p] && sc[q] == nc[p]);
        } else if p == pos {
            assert(sl[src_l.len() as int] == nl[p] && sc[src_l.len() as int] == nc[p]);
        } else {
            assert(entry_in(ol[p - 1], oc[p - 1], src_l, src_c));
            let q = choose|q: int| 0 <= q < src_l.len() && src_l[q] == ol[p - 1] && src_c[q] == oc[p - 1];
            assert(sl[q] == nl[p] && sc[q] == nc[p]);
        }
    }
    assert forall|q: int| 0 <= q < sl.len() implies #[trigger] entry_in(sl[q], sc[q], nl, nc) by {
        if q < src_l.len() {
            assert(entry_in(src_l[q], src_c[q], ol, oc));
            let p = choose|p: int| 0 <= p < ol.len() && ol[p] == src_l[q] && oc[p] == src_c[q];
            if p < pos {
                assert(nl[p] == sl[q] && nc[p] == sc[q]);
            } else {
                assert(nl[p + 1] == sl[q] && nc[p + 1] == sc[q]);
            }
        } else {
            assert(nl[pos] == sl[q] && nc[pos] == sc[q]);
        }
    }
}

proof fn lemma_insert_sorted(ol: Seq<Seq<char>>, oc: Seq<u64>, pos: int, e: Seq<char>, c: nat,
    src_l: Seq<Seq<char>>, src_c: Seq<u64>)
    requires
        ol.len() == oc.len(),
        0 <= pos <= ol.len(),
        forall|a: int, b: int| 0 <= a < b < ol.len() ==> ranks_before(#[trigger] ol[a], oc[a] as nat, #[trigger] ol[b], oc[b] as nat),
        forall|p: int| 0 <= p < pos ==> !ranks_before(e, c, #[trigger] ol[p], oc[p] as nat),
        pos < ol.len() ==> ranks_before(e, c, ol[pos], oc[pos] as nat),
        same_entries(ol, oc, src_l, src_c),
        forall|q: int| 0 <= q < src_l.len() ==> src_l[q] != e,
        c <= u64::MAX,
    ensures
        forall|a: int, b: int| 0 <= a < b < ol.len() + 1 ==> ranks_before(
            #[trigger] ol.insert(pos, e)[a], oc.insert(pos, c as u64)[a] as nat,
            #[trigger] ol.insert(pos, e)[b], oc.insert(pos, c as u64)[b] as nat),
{
    let nl = ol.insert(pos, e);
    let nc = oc.insert(pos, c as u64);
    assert forall|p: int| 0 <= p < ol.len() implies ol[p] != e by {
        assert(entry_in(ol[p], oc[p], src_l, src_c));
    }
    assert forall|p: int| 0 <= p < pos implies ranks_before(#[trigger] ol[p], oc[p] as nat, e, c) by {
        lemma_seq_lt_total(ol[p], e);
    }
    assert forall|p: int| pos <= p < ol.len() implies ranks_before(e, c, #[trigger] ol[p], oc[p] as nat) by {
        if p > pos {
            assert(ranks_before(ol[pos], oc[pos] as nat, ol[p], oc[p] as nat));
            if c == oc[pos] && oc[pos] == oc[p] {
                lemma_seq_lt_transitive(e, ol[pos], ol[p]);
            }
        }
    }
    assert forall|a: int, b: int| 0 <= a < b < ol.len() + 1 implies ranks_before(
        #[trigger] nl[a], nc[a] as nat, #[trigger] nl[b], nc[b] as nat) by {
        if a < pos && b < pos {
            assert(nl[a] == ol[a] && nl[b] == ol[b] && nc[a] == oc[a] && nc[b] == oc[b]);
        } else if a < pos && b == pos {
            assert(nl[a] == ol[a] && nc[a] == oc[a]);
        } else if a < pos {
            assert(nl[a] == ol[a] && nl[b] == ol[b - 1] && nc[a] == oc[a] && nc[b] == oc[b - 1]);
            assert(ranks_before(ol[a], oc[a] as nat, ol[b - 1], oc[b - 1] as nat));
        } else if a == pos {
            assert(nl[b] == ol[b - 1] && nc[b] == oc[b - 1]);
        } else {
            assert(nl[a] == ol[a - 1] && nl[b] == ol[b - 1] && nc[a] == oc[a - 1] && nc[b] == oc[b - 1]);
        }
    }
}

/// Count the occurrences of the first field of every non-empty line (after
/// the header, if any), most frequent first and alphabetically among equals.
pub fn parse_count_lines(lines: &[String], delimiter: char, has_headers: bool) -> (r: Result<Tally, String>)
    ensures
        count_keys(string_views(lines@), delimiter, has_headers) is None
            ==> (r matches Err(m) && m@ == "no data (expected header row)"@),
        count_keys(string_views(lines@), delimiter, has_headers) matches Some(keys) && keys.len() == 0
            ==> (r matches Err(m) && m@ == "no data"@),
        count_keys(string_views(lines@), delimiter, has_headers) matches Some(keys) && keys.len() > 0
            ==> r is Ok,
        r matches Ok(t) ==> is_tally(count_keys(string_views(lines@), delimiter, has_headers).unwrap(),
            string_views(t.labels@), t.counts@),
        r matches Ok(t) ==> sum_counts(t.counts@) == count_keys(string_views(lines@), delimiter, has_headers).unwrap().len(),
{
    let firsts = first_fields(lines, delimiter);
    let ghost all = string_views(lines@);
    let ghost ne = nonempty(all);
    let ghost fa = ne.map_values(|l: Seq<char>| trim(split_on(l, delimiter)[0]));
    if has_headers && firsts.len() == 0 {
        return Err(string_from_chars(&chars_of("no data (expected header row)")));
    }
    let start: usize = if has_headers { 1 } else { 0 };
    let ghost keys = count_keys(all, delimiter, has_headers)->0;
    proof {
        let body = if has_headers { ne.drop_first() } else { ne };
        assert(body.map_values(|l: Seq<char>| trim(split_on(l, delimiter)[0])) =~= fa.skip(start as int));
        assert(keys == views(firsts@).skip(start as int));
    }
    if firsts.len() == start {
        return Err(string_from_chars(&chars_of("no data")));
    }
    let (labels, counts) = tally(&firsts, start);
    proof {
        assert forall|a: int, b: int| 0 <= a < b < labels@.len() implies labels@[a]@ != labels@[b]@ by {
            assert(views(labels@)[a] != views(labels@)[b]);
        }
    }
    let (out_labels, out_counts) = sort_tally(&labels, &counts);
    let mut res_labels: Vec<String> = Vec::new();
    let mut m: usize = 0;
    while m < out_labels.len()
        invariant
            m <= out_labels@.len(),
            string_views(res_labels@) =~= views(out_labels@).take(m as int),
        decreases out_labels.len() - m,
    {
        let s = string_from_chars(&out_labels[m]);
        let ghost before = res_labels@;
        res_labels.push(s);
        proof {
            assert(string_views(res_labels@) =~= string_views(before).push(s@));
            assert(views(out_labels@).take(m + 1) =~= views(out_labels@).take(m as int).push(out_labels@[m as int]@));
        }
        m = m + 1;
    }
    proof {
        assert(views(out_labels@).take(out_labels@.len() as int) =~= views(out_labels@));
        let ls = string_views(res_labels@);
        let src = views(labels@);
        assert(ls =~= views(out_labels@));
        assert forall|i: int| 0 <= i < ls.len() implies #[trigger] keys.contains(ls[i])
            && out_counts@[i] == occurrences(keys, ls[i]) by {
            assert(entry_in(views(out_labels@)[i], out_counts@[i], src, counts@));
            let q = choose|q: int| 0 <= q < src.len() && src[q] == ls[i] && counts@[q] == out_counts@[i];
            assert(keys.contains(src[q]));
            assert(counts@[q] == occurrences(keys, src[q]));
        }
        assert forall|i: int, j: int| 0 <= i < j < ls.len() implies ls[i] != ls[j] by {
            lemma_seq_lt_irreflexive(ls[i]);
            assert(ranks_before(out_labels@[i]@, out_counts@[i] as nat, out_labels@[j]@, out_counts@[j] as nat));
            assert(entry_in(views(out_labels@)[i], out_counts@[i], src, counts@));
            assert(entry_in(views(out_labels@)[j], out_counts@[j], src, counts@));
            let qi = choose|q: int| 0 <= q < src.len() && src[q] == ls[i] && counts@[q] == out_counts@[i];
            let qj = choose|q: int| 0 <= q < src.len() && src[q] == ls[j] && counts@[q] == out_counts@[j];
            if ls[i] == ls[j] {
                if qi != qj {
                    if qi < qj {
                        assert(src[qi] != src[qj]);
                    } else {
                        assert(src[qj] != src[qi]);
                    }
                }
            }
        }
        assert forall|x: Seq<char>| keys.contains(x) implies #[trigger] ls.contains(x) by {
            assert(src.contains(x));
            let q = choose|q: int| 0 <= q < src.len() && src[q] == x;
            assert(entry_in(src[q], counts@[q], views(out_labels@), out_counts@));
            let p = choose|p: int| 0 <= p < ls.len() && views(out_labels@)[p] == src[q] && out_counts@[p] == counts@[q];
            assert(ls[p] == x);
        }
        assert forall|i: int, j: int| 0 <= i < j < ls.len() implies ranks_before(
            #[trigger] ls[i], out_counts@[i] as nat, #[trigger] ls[j], out_counts@[j] as nat) by {
            assert(ranks_before(out_labels@[i]@, out_counts@[i] as nat, out_labels@[j]@, out_counts@[j] as nat));
        }
    }
    Ok(Tally { labels: res_labels, counts: out_counts })
}

} // verus!

verus! {

/// Length in bytes (UTF-8) of a string with these characters (`str::len`).
pub open spec fn byte_len(s: Seq<char>) -> nat {
    vstd::utf8::encode_utf8(s).len()
}

/// The largest byte length among the bin edges.
pub open spec fn edge_width(edges: Seq<(Seq<char>, Seq<char>)>) -> nat
    decreases edges.len(),
{
    if edges.len() == 0 {
        0
    } else {
        let m = edge_width(edges.drop_last());
        let e = edges.last();
        let w = if byte_len(e.0) > byte_len(e.1) { byte_len(e.0) } else { byte_len(e.1) };
        if w > m { w } else { m }
    }
}

/// `s` right-aligned in a field of `w` characters (`{:>w$}`).
pub open spec fn pad_left(s: Seq<char>, w: nat) -> Seq<char> {
    if s.len() < w {
        Seq::new((w - s.len()) as nat, |i: int| ' ') + s
    } else {
        s
    }
}

/// The label `[lo, hi)` with both edges right-aligned to width `w`.
pub open spec fn bin_label(lo: Seq<char>, hi: Seq<char>, w: nat) -> Seq<char> {
    "["@ + pad_left(lo, w) + ", "@ + pad_left(hi, w) + ")"@
}

fn push_padded(out: &mut Vec<char>, s: &String, w: usize)
    ensures
        final(out)@ == old(out)@ + pad_left(s@, w as nat),
{
    let mut v = chars_of(s.as_str());
    let ghost before = out@;
    if v.len() < w {
        let mut k: usize = 0;
        while k < w - v.len()
            invariant
                v@ == s@,
                v@.len() < w,
                k <= w - v@.len(),
                out@ =~= before + Seq::new(k as nat, |i: int| ' '),
            decreases w - v.len() - k,
        {
            out.push(' ');
            k = k + 1;
        }
    }
    out.append(&mut v);
}

/// Format bin labels with right-justified numbers inside brackets: every
/// label is `[lo, hi)` with both edges padded to the widest edge.
pub fn format_bin_labels(edges: &[(String, String)]) -> (r: Vec<String>)
    requires
        forall|k: int| 0 <= k < edges@.len() ==> byte_len(#[trigger] edges@[k].0@) <= usize::MAX
            && byte_len(edges@[k].1@) <= usize::MAX,
    ensures
        string_views(r@) == edges@.map_values(|e: (String, String)|
            bin_label(e.0@, e.1@, edge_width(edges@.map_values(|f: (String, String)| (f.0@, f.1@))))),
{
    let ghost ev = edges@.map_values(|f: (String, String)| (f.0@, f.1@));
    let mut max_w: usize = 0;
    let mut i: usize = 0;
    while i < edges.len()
        invariant
            i <= edges@.len(),
            ev == edges@.map_values(|f: (String, String)| (f.0@, f.1@)),
            max_w == edge_width(ev.take(i as int)),
            forall|k: int| 0 <= k < edges@.len() ==> byte_len(#[trigger] edges@[k].0@) <= usize::MAX
                && byte_len(edges@[k].1@) <= usize::MAX,
        decreases edges.len() - i,
    {
        let sa = edges[i].0.as_str();
        let sb = edges[i].1.as_str();
        let a = sa.len();
        let b = sb.len();
        proof {
            assert(byte_len(edges@[i as int].0@) <= usize::MAX);
            assert(a == byte_len(sa@));
            assert(b == byte_len(sb@));
            assert(ev.take(i + 1).last() == ev[i as int]);
            assert(ev.take(i + 1).drop_last() =~= ev.take(i as int));
            assert(ev[i as int] == (edges@[i as int].0@, edges@[i as int].1@));
        }
        let w = if a > b { a } else { b };
        if w > max_w {
            max_w = w;
        }
        i = i + 1;
    }
    proof { assert(ev.take(edges@.len() as int) =~= ev); }
    let mut out: Vec<String> = Vec::new();
    let mut j: usize = 0;
    while j < edges.len()
        invariant
            j <= edges@.len(),
            max_w == edge_width(ev),
            string_views(out@) =~= edges@.take(j as int).map_values(|e: (String, String)| bin_label(e.0@, e.1@, max_w as nat)),
        decreases edges.len() - j,
    {
        let mut line: Vec<char> = Vec::new();
        push_str(&mut line, "[");
        push_padded(&mut line, &edges[j].0, max_w);
        push_str(&mut line, ", ");
        push_padded(&mut line, &edges[j].1, max_w);
        push_str(&mut line, ")");
        let s = string_from_chars(&line);
        let ghost before = out@;
        out.push(s);
        proof {
            assert(string_views(out@) =~= string_views(before).push(s@));
            assert(edges@.take(j + 1) =~= edges@.take(j as int).push(edges@[j as int]));
        }
        j = j + 1;
    }
    proof { assert(edges@.take(edges@.len() as int) =~= edges@); }
    out
}

} // verus!

verus! {

/// The message for a field that is not a number (`{:?}` of the field).
pub open spec fn not_a_number(field: Seq<char>) -> Seq<char> {
    "cannot parse as number: "@ + str_debug(field)
}

/// Index of the first piece whose trimmed text is not a number, or -1.
pub open spec fn first_bad(pieces: Seq<Seq<char>>) -> int
    decreases pieces.len(),
{
    if pieces.len() == 0 {
        -1
    } else {
        let r = first_bad(pieces.drop_last());
        if r >= 0 { r } else if !is_float_literal(trim(pieces.last())) { pieces.len() - 1 } else { -1 }
    }
}

/// The trimmed fields of a data line, all numbers; otherwise the error for the
/// first field that is not (quoting the field as it stands, untrimmed).
pub open spec fn numeric_fields(line: Seq<char>, d: char) -> Result<Seq<Seq<char>>, Seq<char>> {
    let pieces = split_on(line, d);
    let b = first_bad(pieces);
    if b >= 0 {
        Err(not_a_number(pieces[b]))
    } else {
        Ok(pieces.map_values(|p: Seq<char>| trim(p)))
    }
}

/// The numeric rows of the data lines, or the first error, line by line.
pub open spec fn numeric_rows(body: Seq<Seq<char>>, d: char) -> Result<Seq<Seq<Seq<char>>>, Seq<char>>
    decreases body.len(),
{
    if body.len() == 0 {
        Ok(Seq::empty())
    } else {
        match numeric_rows(body.drop_last(), d) {
            Err(e) => Err(e),
            Ok(rs) => match numeric_fields(body.last(), d) {
                Err(e) => Err(e),
                Ok(f) => Ok(rs.push(f)),
            },
        }
    }
}

/// What `parse_table` gives: the header fields (with a header row), and the
/// rows of numeric fields of the other non-empty lines.
pub open spec fn table_spec(lines: Seq<Seq<char>>, d: char, has_headers: bool)
    -> Result<(Option<Seq<Seq<char>>>, Seq<Seq<Seq<char>>>), Seq<char>> {
    let ne = nonempty(lines);
    if has_headers && ne.len() == 0 {
        Err("no data (expected header row)"@)
    } else {
        let headers = if has_headers { Some(fields(ne[0], d)) } else { None };
        let body = if has_headers { ne.drop_first() } else { ne };
        match numeric_rows(body, d) {
            Err(e) => Err(e),
            Ok(rows) => if rows.len() == 0 { Err("no data"@) } else { Ok((headers, rows)) },
        }
    }
}

/// A table of numbers as text: optional header fields and the rows of fields,
/// every field checked to be a number that `f64::from_str` accepts.
#[derive(Debug)]
pub struct Table {
    pub headers: Option<Vec<String>>,
    pub rows: Vec<Vec<String>>,
}

pub open spec fn rows_view(rows: Seq<Vec<String>>) -> Seq<Seq<Seq<char>>> {
    rows.map_values(|r: Vec<String>| string_views(r@))
}

pub open spec fn table_view(t: Table) -> (Option<Seq<Seq<char>>>, Seq<Seq<Seq<char>>>) {
    (match t.headers {
        Some(h) => Some(string_views(h@)),
        None => None,
    }, rows_view(t.rows@))
}

fn strings_of(v: &Vec<Vec<char>>) -> (r: Vec<String>)
    ensures
        string_views(r@) == views(v@),
{
    let mut r: Vec<String> = Vec::new();
    let mut i: usize = 0;
    while i < v.len()
        invariant
            i <= v@.len(),
            string_views(r@) =~= views(v@).take(i as int),
        decreases v.len() - i,
    {
        let s = string_from_chars(&v[i]);
        let ghost before = r@;
        r.push(s);
        proof {
            assert(string_views(r@) =~= string_views(before).push(s@));
            assert(views(v@).take(i + 1) =~= views(v@).take(i as int).push(v@[i as int]@));
        }
        i = i + 1;
    }
    proof { assert(views(v@).take(v@.len() as int) =~= views(v@)); }
    r
}

fn not_a_number_msg(field: &Vec<char>) -> (e: String)
    ensures
        e@ == not_a_number(field@),
{
    let mut m: Vec<char> = Vec::new();
    push_str(&mut m, "cannot parse as number: ");
    let f = string_from_chars(field);
    let d = debug_string(f.as_str());
    push_str(&mut m, d.as_str());
    string_from_chars(&m)
}

/// The numeric fields of one line (see `numeric_fields`).
fn numeric_fields_of(line: &Vec<char>, d: char) -> (r: Result<Vec<String>, String>)
    ensures
        r matches Ok(f) ==> numeric_fields(line@, d) == Ok::<Seq<Seq<char>>, Seq<char>>(string_views(f@)),
        r matches Err(e) ==> numeric_fields(line@, d) == Err::<Seq<Seq<char>>, Seq<char>>(e@),
{
    let pieces = split_chars(line, d);
    let ghost ps = views(pieces@);
    let mut out: Vec<Vec<char>> = Vec::new();
    let mut i: usize = 0;
    while i < pieces.len()
        invariant
            i <= pieces@.len(),
            ps == views(pieces@),
            ps == split_on(line@, d),
            first_bad(ps.take(i as int)) < 0,
            views(out@) =~= ps.take(i as int).map_values(|p: Seq<char>| trim(p)),
        decreases pieces.len() - i,
    {
        proof {
            assert(ps[i as int] == pieces@[i as int]@);
            assert(ps.take(i + 1).drop_last() =~= ps.take(i as int));
            assert(ps.take(i + 1).last() == ps[i as int]);
        }
        let t = trim_chars(&pieces[i]);
        if !float_literal_check(&t) {
            proof {
                assert(first_bad(ps.take(i + 1)) == i);
                lemma_first_bad_prefix(ps, i as int + 1);
            }
            return Err(not_a_number_msg(&pieces[i]));
        }
        let ghost before = out@;
        out.push(t);
        proof {
            assert(views(out@) =~= views(before).push(t@));
            assert(ps.take(i + 1).map_values(|p: Seq<char>| trim(p)) =~=
                ps.take(i as int).map_values(|p: Seq<char>| trim(p)).push(trim(ps[i as int])));
        }
        i = i + 1;
    }
    proof { assert(ps.take(pieces@.len() as int) =~= ps); }
    Ok(strings_of(&out))
}

/// A bad piece in a prefix stays the first bad piece of the whole sequence.
proof fn lemma_first_bad_prefix(ps: Seq<Seq<char>>, k: int)
    requires
        0 <= k <= ps.len(),
        first_bad(ps.take(k)) >= 0,
    ensures
        first_bad(ps) == first_bad(ps.take(k)),
    decreases ps.len() - k,
{
    if k < ps.len() {
        assert(ps.take(k + 1).drop_last() =~= ps.take(k));
        lemma_first_bad_prefix(ps, k + 1);
    } else {
        assert(ps.take(k) =~= ps);
    }
}

/// Read delimited numeric lines as text: the header row (if any) split into
/// trimmed fields, then every other non-empty line split into trimmed fields
/// that must all be numbers.
pub fn parse_table(lines: &[String], delimiter: char, has_headers: bool) -> (r: Result<Table, String>)
    ensures
        r matches Ok(t) ==> table_spec(string_views(lines@), delimiter, has_headers)
            == Ok::<(Option<Seq<Seq<char>>>, Seq<Seq<Seq<char>>>), Seq<char>>(table_view(t)),
        r matches Err(e) ==> table_spec(string_views(lines@), delimiter, has_headers)
            == Err::<(Option<Seq<Seq<char>>>, Seq<Seq<Seq<char>>>), Seq<char>>(e@),
{
    let ghost all = string_views(lines@);
    let ghost ne = nonempty(all);
    let mut headers: Option<Vec<String>> = None;
    let mut need_header = has_headers;
    let mut rows: Vec<Vec<String>> = Vec::new();
    let mut i: usize = 0;
    proof {
        assert(all.take(0) =~= Seq::<Seq<char>>::empty());
        assert(rows_view(rows@) =~= Seq::<Seq<Seq<char>>>::empty());
    }
    while i < lines.len()
        invariant
            i <= lines@.len(),
            all == string_views(lines@),
            ne == nonempty(all),
            need_header == (has_headers && nonempty(all.take(i as int)).len() == 0),
            has_headers && !need_header ==> (headers matches Some(h) && string_views(h@) == fields(nonempty(all.take(i as int))[0], delimiter)),
            !has_headers ==> headers is None,
            numeric_rows(if has_headers && !need_header { nonempty(all.take(i as int)).drop_first() } else { nonempty(all.take(i as int)) }, delimiter)
                == Ok::<Seq<Seq<Seq<char>>>, Seq<char>>(rows_view(rows@)),
        decreases lines.len() - i,
    {
        let l = chars_of(lines[i].as_str());
        let ghost prev = nonempty(all.take(i as int));
        proof {
            assert(all.take(i + 1).drop_last() =~= all.take(i as int));
            assert(all.take(i + 1).last() == l@);
        }
        if l.len() > 0 {
            proof {
                assert(nonempty(all.take(i + 1)) == prev.push(l@));
            }
            if need_header {
                let f = fields_of(&l, delimiter);
                headers = Some(strings_of(&f));
                need_header = false;
                proof {
                    assert(prev.len() == 0);
                    assert(prev.push(l@)[0] == l@);
                    assert(prev.push(l@).drop_first() =~= Seq::<Seq<char>>::empty());
                }
            } else {
                let ghost body_prev = if has_headers { prev.drop_first() } else { prev };
                proof {
                    if has_headers {
                        assert(prev.push(l@).drop_first() =~= body_prev.push(l@));
                        assert(prev.push(l@)[0] == prev[0]);
                    } else {
                        assert(prev.push(l@) == body_prev.push(l@));
                    }
                    assert(body_prev.push(l@).drop_last() =~= body_prev);
                }
                match numeric_fields_of(&l, delimiter) {
                    Ok(f) => {
                        let ghost before = rows@;
                        rows.push(f);
                        proof {
                            assert(rows_view(rows@) =~= rows_view(before).push(string_views(f@)));
                        }
                    },
                    Err(e) => {
                        proof {
                            assert(numeric_rows(body_prev.push(l@), delimiter) == Err::<Seq<Seq<Seq<char>>>, Seq<char>>(e@));
                            lemma_nonempty_grows(all, i + 1);
                            lemma_numeric_rows_error(nonempty(all.take(i + 1)), all, i + 1, has_headers, delimiter);
                        }
                        return Err(e);
                    },
                }
            }
        } else {
            proof {
                assert(nonempty(all.take(i + 1)) == prev);
            }
        }
        i = i + 1;
    }
    proof { assert(all.take(lines@.len() as int) =~= all); }
    if need_header {
        return Err(string_from_chars(&chars_of("no data (expected header row)")));
    }
    if rows.len() == 0 {
        return Err(string_from_chars(&chars_of("no data")));
    }
    Ok(Table { headers, rows })
}

proof fn lemma_nonempty_grows(all: Seq<Seq<char>>, k: int)
    requires
        0 <= k <= all.len(),
    ensures
        nonempty(all.take(k)).len() <= nonempty(all).len(),
        nonempty(all.take(k)).len() > 0 ==> nonempty(all)[0] == nonempty(all.take(k))[0],
    decreases all.len() - k,
{
    if k < all.len() {
        assert(all.take(k + 1).drop_last() =~= all.take(k));
        lemma_nonempty_grows(all, k + 1);
    } else {
        assert(all.take(k) =~= all);
    }
}

/// An error in the rows of a prefix of the lines is the error of all the lines.
proof fn lemma_numeric_rows_error(pre: Seq<Seq<char>>, all: Seq<Seq<char>>, k: int, has_headers: bool, d: char)
    requires
        0 <= k <= all.len(),
        pre == nonempty(all.take(k)),
        has_headers ==> pre.len() > 0,
        numeric_rows(if has_headers { pre.drop_first() } else { pre }, d) is Err,
    ensures
        numeric_rows(if has_headers { nonempty(all).drop_first() } else { nonempty(all) }, d)
            == numeric_rows(if has_headers { pre.drop_first() } else { pre }, d),
    decreases all.len() - k,
{
    if k < all.len() {
        let next = nonempty(all.take(k + 1));
        assert(all.take(k + 1).drop_last() =~= all.take(k));
        if all[k].len() > 0 {
            assert(next == pre.push(all[k]));
            let b = if has_headers { pre.drop_first() } else { pre };
            let nb = if has_headers { next.drop_first() } else { next };
            assert(nb =~= b.push(all[k]));
            assert(nb.drop_last() =~= b);
        } else {
            assert(next == pre);
        }
        lemma_numeric_rows_error(next, all, k + 1, has_headers, d);
    } else {
        assert(all.take(k) =~= all);
    }
}

} // verus!

verus! {

/// The label and value text of a bar line: a single field is a value
/// labelled by its row number (`n` rows before it), otherwise the first two
/// fields are the label and the value.
pub open spec fn bar_entry(f: Seq<Seq<char>>, n: nat) -> (Seq<char>, Seq<char>) {
    if f.len() == 1 { (decimal(n + 1), f[0]) } else { (f[0], f[1]) }
}

/// The labels and values of the bar lines, or the first value that is not a number.
pub open spec fn bar_rows(body: Seq<Seq<char>>, d: char) -> Result<(Seq<Seq<char>>, Seq<Seq<char>>), Seq<char>>
    decreases body.len(),
{
    if body.len() == 0 {
        Ok((Seq::empty(), Seq::empty()))
    } else {
        match bar_rows(body.drop_last(), d) {
            Err(e) => Err(e),
            Ok(lv) => {
                let e = bar_entry(fields(body.last(), d), lv.1.len());
                if !is_float_literal(e.1) {
                    Err(not_a_number(e.1))
                } else {
                    Ok((lv.0.push(e.0), lv.1.push(e.1)))
                }
            },
        }
    }
}

/// The non-empty lines after the header (if any), or `None` when a header is
/// expected and there is no non-empty line.
pub open spec fn data_lines(lines: Seq<Seq<char>>, has_headers: bool) -> Option<Seq<Seq<char>>> {
    let ne = nonempty(lines);
    if has_headers && ne.len() == 0 {
        None
    } else if has_headers {
        Some(ne.drop_first())
    } else {
        Some(ne)
    }
}

/// What `parse_bar_lines` gives.
pub open spec fn bar_spec(lines: Seq<Seq<char>>, d: char, has_headers: bool) -> Result<(Seq<Seq<char>>, Seq<Seq<char>>), Seq<char>> {
    match data_lines(lines, has_headers) {
        None => Err("no data (expected header row)"@),
        Some(body) => match bar_rows(body, d) {
            Err(e) => Err(e),
            Ok(lv) => if lv.1.len() == 0 { Err("no data"@) } else { Ok(lv) },
        },
    }
}

/// Bar chart input as text: a label and a number for each bar.
#[derive(Debug)]
pub struct BarText {
    pub labels: Vec<String>,
    pub values: Vec<String>,
}

/// The data lines of `lines` (after the header, if any): a loop helper that
/// gives them one at a time with their index.
proof fn lemma_data_lines_step(all: Seq<Seq<char>>, i: int, has_headers: bool)
    requires
        0 <= i < all.len(),
    ensures
        all.take(i + 1).drop_last() == all.take(i),
        all.take(i + 1).last() == all[i],
        all[i].len() > 0 ==> nonempty(all.take(i + 1)) == nonempty(all.take(i)).push(all[i]),
        all[i].len() == 0 ==> nonempty(all.take(i + 1)) == nonempty(all.take(i)),
{
    assert(all.take(i + 1).drop_last() =~= all.take(i));
}

proof fn lemma_data_lines_push(pre: Seq<Seq<char>>, l: Seq<char>, has_headers: bool)
    requires
        has_headers ==> pre.len() > 0,
    ensures
        (if has_headers { pre.push(l).drop_first() } else { pre.push(l) })
            == (if has_headers { pre.drop_first() } else { pre }).push(l),
{
    if has_headers {
        assert(pre.push(l).drop_first() =~= pre.drop_first().push(l));
    }
}

proof fn lemma_bar_rows_error(pre: Seq<Seq<char>>, all: Seq<Seq<char>>, k: int, has_headers: bool, d: char)
    requires
        0 <= k <= all.len(),
        pre == nonempty(all.take(k)),
        has_headers ==> pre.len() > 0,
        bar_rows(if has_headers { pre.drop_first() } else { pre }, d) is Err,
    ensures
        bar_rows(if has_headers { nonempty(all).drop_first() } else { nonempty(all) }, d)
            == bar_rows(if has_headers { pre.drop_first() } else { pre }, d),
    decreases all.len() - k,
{
    if k < all.len() {
        lemma_data_lines_step(all, k, has_headers);
        let next = nonempty(all.take(k + 1));
        if all[k].len() > 0 {
            lemma_data_lines_push(pre, all[k], has_headers);
            let nb = if has_headers { next.drop_first() } else { next };
            assert(nb.drop_last() =~= (if has_headers { pre.drop_first() } else { pre }));
        }
        lemma_bar_rows_error(next, all, k + 1, has_headers, d);
    } else {
        assert(all.take(k) =~= all);
    }
}

/// Read bar chart lines: each non-empty line after the header (if any) is
/// `label<delim>value`, or just a value labelled by its row number.
pub fn parse_bar_lines(lines: &[String], delimiter: char, has_headers: bool) -> (r: Result<BarText, String>)
    ensures
        r matches Ok(t) ==> bar_spec(string_views(lines@), delimiter, has_headers)
            == Ok::<(Seq<Seq<char>>, Seq<Seq<char>>), Seq<char>>((string_views(t.labels@), string_views(t.values@))),
        r matches Err(e) ==> bar_spec(string_views(lines@), delimiter, has_headers)
            == Err::<(Seq<Seq<char>>, Seq<Seq<char>>), Seq<char>>(e@),
{
    let ghost all = string_views(lines@);
    let mut need_header = has_headers;
    let mut labels: Vec<String> = Vec::new();
    let mut values: Vec<String> = Vec::new();
    let mut i: usize = 0;
    proof {
        assert(all.take(0) =~= Seq::<Seq<char>>::empty());
        assert(string_views(labels@) =~= Seq::<Seq<char>>::empty());
        assert(string_views(values@) =~= Seq::<Seq<char>>::empty());
    }
    while i < lines.len()
        invariant
            i <= lines@.len(),
            all == string_views(lines@),
            need_header == (has_headers && nonempty(all.take(i as int)).len() == 0),
            values@.len() <= i,
            bar_rows(if has_headers && !need_header { nonempty(all.take(i as int)).drop_first() } else { nonempty(all.take(i as int)) }, delimiter)
                == Ok::<(Seq<Seq<char>>, Seq<Seq<char>>), Seq<char>>((string_views(labels@), string_views(values@))),
        decreases lines.len() - i,
    {
        let l = chars_of(lines[i].as_str());
        let ghost prev = nonempty(all.take(i as int));
        proof {
            assert(all[i as int] == l@);
            lemma_data_lines_step(all, i as int, has_headers);
        }
        if l.len() > 0 {
            if need_header {
                need_header = false;
                proof {
                    assert(prev.push(l@).drop_first() =~= Seq::<Seq<char>>::empty());
                }
            } else {
                let ghost body_prev = if has_headers { prev.drop_first() } else { prev };
                proof {
                    lemma_data_lines_push(prev, l@, has_headers);
                    assert(body_prev.push(l@).drop_last() =~= body_prev);
                }
                let f = fields_of(&l, delimiter);
                let n = values.len();
                let (lab, val) = if f.len() == 1 {
                    let mut num: Vec<char> = Vec::new();
                    crate::text::push_decimal(&mut num, (n as u64) + 1);
                    let v = sub_chars(&f[0], 0, f[0].len());
                    (num, v)
                } else {
                    let a = sub_chars(&f[0], 0, f[0].len());
                    let b = sub_chars(&f[1], 0, f[1].len());
                    (a, b)
                };
                proof {
                    assert(views(f@)[0] == f@[0]@);
                    if f@.len() > 1 { assert(views(f@)[1] == f@[1]@); }
                    assert(f@[0]@.subrange(0, f@[0]@.len() as int) =~= f@[0]@);
                    if f@.len() > 1 { assert(f@[1]@.subrange(0, f@[1]@.len() as int) =~= f@[1]@); }
                    assert(n as nat == string_views(values@).len());
                    assert(lab@ == bar_entry(fields(l@, delimiter), n as nat).0);
                    assert(val@ == bar_entry(fields(l@, delimiter), n as nat).1);
                }
                if !float_literal_check(&val) {
                    proof {
                        lemma_nonempty_grows(all, i + 1);
                        lemma_bar_rows_error(nonempty(all.take(i + 1)), all, i + 1, has_headers, delimiter);
                    }
                    return Err(not_a_number_msg(&val));
                }
                let ls = string_from_chars(&lab);
                let vs = string_from_chars(&val);
                let ghost bl = labels@;
                let ghost bv = values@;
                labels.push(ls);
                values.push(vs);
                proof {
                    assert(string_views(labels@) =~= string_views(bl).push(lab@));
                    assert(string_views(values@) =~= string_views(bv).push(val@));
                }
            }
        }
        i = i + 1;
    }
    proof { assert(all.take(lines@.len() as int) =~= all); }
    if need_header {
        return Err(string_from_chars(&chars_of("no data (expected header row)")));
    }
    if values.len() == 0 {
        return Err(string_from_chars(&chars_of("no data")));
    }
    Ok(BarText { labels, values })
}

/// The first fields (trimmed) of the data lines, all numbers, or the first that is not.
pub open spec fn hist_rows(body: Seq<Seq<char>>, d: char) -> Result<Seq<Seq<char>>, Seq<char>>
    decreases body.len(),
{
    if body.len() == 0 {
        Ok(Seq::empty())
    } else {
        match hist_rows(body.drop_last(), d) {
            Err(e) => Err(e),
            Ok(vs) => {
                let f = trim(split_on(body.last(), d)[0]);
                if !is_float_literal(f) { Err(not_a_number(f)) } else { Ok(vs.push(f)) }
            },
        }
    }
}

/// What `parse_hist_lines` gives.
pub open spec fn hist_spec(lines: Seq<Seq<char>>, d: char, has_headers: bool) -> Result<Seq<Seq<char>>, Seq<char>> {
    match data_lines(lines, has_headers) {
        None => Err("no data (expected header row)"@),
        Some(body) => match hist_rows(body, d) {
            Err(e) => Err(e),
            Ok(vs) => if vs.len() == 0 { Err("no data"@) } else { Ok(vs) },
        },
    }
}

proof fn lemma_hist_rows_error(pre: Seq<Seq<char>>, all: Seq<Seq<char>>, k: int, has_headers: bool, d: char)
    requires
        0 <= k <= all.len(),
        pre == nonempty(all.take(k)),
        has_headers ==> pre.len() > 0,
        hist_rows(if has_headers { pre.drop_first() } else { pre }, d) is Err,
    ensures
        hist_rows(if has_headers { nonempty(all).drop_first() } else { nonempty(all) }, d)
            == hist_rows(if has_headers { pre.drop_first() } else { pre }, d),
    decreases all.len() - k,
{
    if k < all.len() {
        lemma_data_lines_step(all, k, has_headers);
        let next = nonempty(all.take(k + 1));
        if all[k].len() > 0 {
            lemma_data_lines_push(pre, all[k], has_headers);
            let nb = if has_headers { next.drop_first() } else { next };
            assert(nb.drop_last() =~= (if has_headers { pre.drop_first() } else { pre }));
        }
        lemma_hist_rows_error(next, all, k + 1, has_headers, d);
    } else {
        assert(all.take(k) =~= all);
    }
}

/// Read histogram lines: the first field (trimmed) of each non-empty line
/// after the header (if any), each a number.
pub fn parse_hist_lines(lines: &[String], delimiter: char, has_headers: bool) -> (r: Result<Vec<String>, String>)
    ensures
        r matches Ok(v) ==> hist_spec(string_views(lines@), delimiter, has_headers)
            == Ok::<Seq<Seq<char>>, Seq<char>>(string_views(v@)),
        r matches Err(e) ==> hist_spec(string_views(lines@), delimiter, has_headers)
            == Err::<Seq<Seq<char>>, Seq<char>>(e@),
{
    let ghost all = string_views(lines@);
    let mut need_header = has_headers;
    let mut values: Vec<String> = Vec::new();
    let mut i: usize = 0;
    proof {
        assert(all.take(0) =~= Seq::<Seq<char>>::empty());
        assert(string_views(values@) =~= Seq::<Seq<char>>::empty());
    }
    while i < lines.len()
        invariant
            i <= lines@.len(),
            all == string_views(lines@),
            need_header == (has_headers && nonempty(all.take(i as int)).len() == 0),
            hist_rows(if has_headers && !need_header { nonempty(all.take(i as int)).drop_first() } else { nonempty(all.take(i as int)) }, delimiter)
                == Ok::<Seq<Seq<char>>, Seq<char>>(string_views(values@)),
        decreases lines.len() - i,
    {
        let l = chars_of(lines[i].as_str());
        let ghost prev = nonempty(all.take(i as int));
        proof {
            assert(all[i as int] == l@);
            lemma_data_lines_step(all, i as int, has_headers);
        }
        if l.len() > 0 {
            if need_header {
                need_header = false;
                proof {
                    assert(prev.push(l@).drop_first() =~= Seq::<Seq<char>>::empty());
                }
            } else {
                let ghost body_prev = if has_headers { prev.drop_first() } else { prev };
                proof {
                    lemma_data_lines_push(prev, l@, has_headers);
                    assert(body_prev.push(l@).drop_last() =~= body_prev);
                }
                let pieces = split_chars(&l, delimiter);
                proof { assert(views(pieces@)[0] == pieces@[0]@); }
                let f = trim_chars(&pieces[0]);
                if !float_literal_check(&f) {
                    proof {
                        assert(hist_rows(body_prev.push(l@), delimiter) == Err::<Seq<Seq<char>>, Seq<char>>(not_a_number(f@)));
                        lemma_nonempty_grows(all, i + 1);
                        lemma_hist_rows_error(nonempty(all.take(i + 1)), all, i + 1, has_headers, delimiter);
                    }
                    return Err(not_a_number_msg(&f));
                }
                let s = string_from_chars(&f);
                let ghost bv = values@;
                values.push(s);
                proof {
                    assert(string_views(values@) =~= string_views(bv).push(f@));
                }
            }
        }
        i = i + 1;
    }
    proof { assert(all.take(lines@.len() as int) =~= all); }
    if need_header {
        return Err(string_from_chars(&chars_of("no data (expected header row)")));
    }
    if values.len() == 0 {
        return Err(string_from_chars(&chars_of("no data")));
    }
    Ok(values)
}

} // verus!

verus! {

/// The bin that index `i` falls in when there are `n` bins: an index past
/// the last bin counts in the last one.
pub open spec fn bin_of(i: int, n: int) -> int {
    if i >= n { n - 1 } else { i }
}

/// How many of the indices fall in bin `b` of `n`.
pub open spec fn bin_count(idx: Seq<usize>, n: int, b: int) -> nat
    decreases idx.len(),
{
    if idx.len() == 0 {
        0
    } else {
        bin_count(idx.drop_last(), n, b) + if bin_of(idx.last() as int, n) == b { 1nat } else { 0nat }
    }
}

/// The sizes of the first `m` bins, added up.
pub open spec fn bins_total(idx: Seq<usize>, n: int, m: int) -> nat
    decreases m,
{
    if m <= 0 { 0 } else { bins_total(idx, n, m - 1) + bin_count(idx, n, m - 1) }
}

proof fn lemma_bin_count_bound(idx: Seq<usize>, n: int, b: int)
    ensures
        bin_count(idx, n, b) <= idx.len(),
    decreases idx.len(),
{
    if idx.len() > 0 {
        lemma_bin_count_bound(idx.drop_last(), n, b);
    }
}

proof fn lemma_bins_total_step(idx: Seq<usize>, n: int, m: int)
    requires
        idx.len() > 0,
        m >= 0,
    ensures
        bins_total(idx, n, m) == bins_total(idx.drop_last(), n, m)
            + if 0 <= bin_of(idx.last() as int, n) < m { 1nat } else { 0nat },
    decreases m,
{
    if m > 0 {
        lemma_bins_total_step(idx, n, m - 1);
    }
}

/// Every index falls in exactly one bin: the bins of a histogram add up to
/// the number of values binned.
pub proof fn lemma_bins_total(idx: Seq<usize>, n: int)
    requires
        n >= 1,
    ensures
        bins_total(idx, n, n) == idx.len(),
    decreases idx.len(),
{
    if idx.len() > 0 {
        lemma_bins_total(idx.drop_last(), n);
        lemma_bins_total_step(idx, n, n);
    } else {
        lemma_bins_total_empty(idx, n, n);
    }
}

proof fn lemma_bins_total_empty(idx: Seq<usize>, n: int, m: int)
    requires
        idx.len() == 0,
    ensures
        bins_total(idx, n, m) == 0,
    decreases m,
{
    if m > 0 {
        lemma_bins_total_empty(idx, n, m - 1);
    }
}

/// Count the values in each of `nbins` bins, given the bin index of each
/// value (indices past the last bin count in the last one).
pub fn tally_bins(idx: &[usize], nbins: usize) -> (r: Vec<u64>)
    requires
        nbins >= 1,
    ensures
        r@.len() == nbins,
        forall|b: int| 0 <= b < nbins ==> #[trigger] r@[b] == bin_count(idx@, nbins as int, b),
{
    let mut r: Vec<u64> = Vec::new();
    let mut b: usize = 0;
    while b < nbins
        invariant
            b <= nbins,
            r@.len() == b,
            forall|q: int| 0 <= q < b ==> #[trigger] r@[q] == 0,
        decreases nbins - b,
    {
        r.push(0);
        b = b + 1;
    }
    let mut k: usize = 0;
    proof { assert(idx@.take(0) =~= Seq::<usize>::empty()); }
    while k < idx.len()
        invariant
            k <= idx@.len(),
            nbins >= 1,
            r@.len() == nbins,
            forall|q: int| 0 <= q < nbins ==> #[trigger] r@[q] == bin_count(idx@.take(k as int), nbins as int, q),
        decreases idx.len() - k,
    {
        let i = if idx[k] >= nbins { nbins - 1 } else { idx[k] };
        proof {
            assert(idx@.take(k + 1).drop_last() =~= idx@.take(k as int));
            assert(idx@.take(k + 1).last() == idx@[k as int]);
            lemma_bin_count_bound(idx@.take(k as int), nbins as int, i as int);
            assert(usize::MAX <= u64::MAX);
        }
        let c = r[i];
        r.set(i, c + 1);
        k = k + 1;
    }
    proof { assert(idx@.take(idx@.len() as int) =~= idx@); }
    r
}

} // verus!

verus! {

proof fn lemma_edge_width_bounds(edges: Seq<(Seq<char>, Seq<char>)>, k: int)
    requires
        0 <= k < edges.len(),
    ensures
        byte_len(edges[k].0) <= edge_width(edges),
        byte_len(edges[k].1) <= edge_width(edges),
    decreases edges.len(),
{
    if k < edges.len() - 1 {
        lemma_edge_width_bounds(edges.drop_last(), k);
        assert(edges.drop_last()[k] == edges[k]);
    }
}

/// Histogram labels line up: when the edges are ASCII (as formatted numbers
/// are), every label `[lo, hi)` has the same length, twice the widest edge
/// plus four.
pub proof fn lemma_bin_labels_line_up(edges: Seq<(Seq<char>, Seq<char>)>, k: int)
    requires
        0 <= k < edges.len(),
        forall|j: int| 0 <= j < edges.len() ==> vstd::utf8::is_ascii_chars(#[trigger] edges[j].0)
            && vstd::utf8::is_ascii_chars(edges[j].1),
    ensures
        bin_label(edges[k].0, edges[k].1, edge_width(edges)).len() == 2 * edge_width(edges) + 4,
{
    lemma_edge_width_bounds(edges, k);
    vstd::utf8::is_ascii_chars_encode_utf8(edges[k].0);
    vstd::utf8::is_ascii_chars_encode_utf8(edges[k].1);
    reveal_strlit("[");
    reveal_strlit(", ");
    reveal_strlit(")");
}

} // verus!

verus! {

/// A table that reads back as itself: at least one row, every row with the
/// same number (at least one) of fields, and every field non-empty, already
/// trimmed and free of the delimiter.
pub open spec fn canonical_grid(g: Seq<Seq<Seq<char>>>, d: char) -> bool {
    &&& g.len() >= 1
    &&& g[0].len() >= 1
    &&& forall|i: int| 0 <= i < g.len() ==> #[trigger] g[i].len() == g[0].len()
    &&& forall|i: int, j: int| 0 <= i < g.len() && 0 <= j < g[i].len() ==>
        (#[trigger] g[i][j]).len() > 0 && trim(g[i][j]) == g[i][j] && !g[i][j].contains(d)
}

/// The lines of a table: each row's fields joined by the delimiter.
pub open spec fn grid_lines(g: Seq<Seq<Seq<char>>>, d: char) -> Seq<Seq<char>> {
    g.map_values(|r: Seq<Seq<char>>| join(r, seq![d]))
}

/// A table with rows and columns swapped.
pub open spec fn swap_grid(g: Seq<Seq<Seq<char>>>) -> Seq<Seq<Seq<char>>> {
    Seq::new(g[0].len(), |c: int| Seq::new(g.len(), |i: int| g[i][c]))
}

proof fn lemma_join_front(r: Seq<Seq<char>>, sep: Seq<char>)
    requires
        r.len() >= 2,
    ensures
        join(r, sep) == r[0] + sep + join(r.drop_first(), sep),
    decreases r.len(),
{
    if r.len() == 2 {
        assert(r.drop_last() =~= seq![r[0]]);
        assert(r.drop_first() =~= seq![r[1]]);
        assert(join(r.drop_last(), sep) == r[0]);
        assert(join(r.drop_first(), sep) == r[1]);
        assert(join(r, sep) == join(r.drop_last(), sep) + sep + r.last());
    } else {
        lemma_join_front(r.drop_last(), sep);
        assert(r.drop_last().drop_first() =~= r.drop_first().drop_last());
        assert(r.drop_first().last() == r.last());
        assert(join(r, sep) =~= r[0] + sep + join(r.drop_first(), sep));
    }
}

proof fn lemma_no_delimiter(s: Seq<char>, d: char)
    requires
        !s.contains(d),
    ensures
        crate::text::first_index(s, d) == -1,
        split_on(s, d) == seq![s],
{
    crate::text::lemma_first_index_after(s, Seq::empty(), d);
    assert(s + Seq::<char>::empty() =~= s);
}

/// Splitting the joined fields gives the fields back, when no field holds the delimiter.
proof fn lemma_split_join(r: Seq<Seq<char>>, d: char)
    requires
        r.len() >= 1,
        forall|j: int| 0 <= j < r.len() ==> !(#[trigger] r[j]).contains(d),
    ensures
        split_on(join(r, seq![d]), d) == r,
    decreases r.len(),
{
    if r.len() == 1 {
        lemma_no_delimiter(r[0], d);
        assert(seq![r[0]] =~= r);
    } else {
        lemma_join_front(r, seq![d]);
        let rest = join(r.drop_first(), seq![d]);
        let x = r[0] + seq![d] + rest;
        assert(!r[0].contains(d));
        crate::text::lemma_first_index_after(r[0], seq![d] + rest, d);
        assert(r[0] + (seq![d] + rest) =~= x);
        assert(crate::text::first_index(seq![d] + rest, d) == 0);
        assert(x.take(r[0].len() as int) =~= r[0]);
        assert(x.skip(r[0].len() as int + 1) =~= rest);
        assert forall|j: int| 0 <= j < r.drop_first().len() implies !(#[trigger] r.drop_first()[j]).contains(d) by {
            assert(r.drop_first()[j] == r[j + 1]);
        }
        lemma_split_join(r.drop_first(), d);
        assert(seq![r[0]] + r.drop_first() =~= r);
    }
}

proof fn lemma_nonempty_all(lines: Seq<Seq<char>>)
    requires
        forall|i: int| 0 <= i < lines.len() ==> (#[trigger] lines[i]).len() > 0,
    ensures
        nonempty(lines) == lines,
    decreases lines.len(),
{
    if lines.len() > 0 {
        lemma_nonempty_all(lines.drop_last());
        assert(lines.drop_last().push(lines.last()) =~= lines);
    }
}

proof fn lemma_max_fields_equal(rows: Seq<Seq<Seq<char>>>, m: nat)
    requires
        rows.len() >= 1,
        forall|i: int| 0 <= i < rows.len() ==> #[trigger] rows[i].len() == m,
    ensures
        max_fields(rows) == m,
    decreases rows.len(),
{
    if rows.len() > 1 {
        lemma_max_fields_equal(rows.drop_last(), m);
    } else {
        assert(max_fields(rows.drop_last()) == 0);
    }
}

/// The lines of a canonical table read back as the table, and transposing
/// them gives the lines of the swapped table.
proof fn lemma_transpose_canonical(g: Seq<Seq<Seq<char>>>, d: char)
    requires
        canonical_grid(g, d),
    ensures
        grid_of(grid_lines(g, d), d) == g,
        transpose_spec(grid_lines(g, d), d) == grid_lines(swap_grid(g), d),
        canonical_grid(swap_grid(g), d),
        swap_grid(swap_grid(g)) == g,
{
    let lines = grid_lines(g, d);
    let m = g[0].len();
    assert forall|i: int| 0 <= i < lines.len() implies (#[trigger] lines[i]).len() > 0 by {
        assert(g[i].len() == m);
        assert(g[i][g[i].len() - 1].len() > 0);
        assert(join(g[i], seq![d]).len() > 0);
    }
    lemma_nonempty_all(lines);
    assert forall|i: int| 0 <= i < g.len() implies fields(#[trigger] lines[i], d) == g[i] by {
        assert(g[i].len() == m);
        assert forall|j: int| 0 <= j < g[i].len() implies !(#[trigger] g[i][j]).contains(d) by {}
        lemma_split_join(g[i], d);
        assert(g[i].map_values(|p: Seq<char>| trim(p)) =~= g[i]);
    }
    assert(grid_of(lines, d) =~= g);
    lemma_max_fields_equal(g, m);
    let s = swap_grid(g);
    assert forall|c: int| 0 <= c < m implies #[trigger] column(g, c) == s[c] by {
        assert forall|i: int| 0 <= i < g.len() implies #[trigger] column(g, c)[i] == s[c][i] by {
            assert(g[i].len() == m);
        }
        assert(column(g, c) =~= s[c]);
    }
    assert(transpose_spec(lines, d) =~= grid_lines(s, d));
    assert(canonical_grid(s, d)) by {
        assert(s[0].len() == g.len());
        assert forall|c: int, i: int| 0 <= c < s.len() && 0 <= i < s[c].len() implies
            (#[trigger] s[c][i]).len() > 0 && trim(s[c][i]) == s[c][i] && !s[c][i].contains(d) by {
            assert(g[i].len() == m);
            assert(s[c][i] == g[i][c]);
        }
    }
    assert forall|i: int| 0 <= i < g.len() implies #[trigger] swap_grid(s)[i] == g[i] by {
        assert(g[i].len() == m);
        assert(swap_grid(s)[i] =~= g[i]);
    }
    assert(swap_grid(s) =~= g);
}

/// Transposing a rectangular table whose fields are non-empty, trimmed and
/// free of the delimiter gives one line per column, and transposing twice
/// gives back its lines.
pub proof fn lemma_transpose_twice(g: Seq<Seq<Seq<char>>>, d: char)
    requires
        canonical_grid(g, d),
    ensures
        transpose_spec(grid_lines(g, d), d).len() == g[0].len(),
        transpose_spec(transpose_spec(grid_lines(g, d), d), d) == grid_lines(g, d),
{
    lemma_transpose_canonical(g, d);
    lemma_transpose_canonical(swap_grid(g), d);
}

} // verus!

verus! {

/// The x values and the series of a table: with one column, the rows are
/// numbered from 1 and the column is the only series; otherwise the first
/// column is x and each further column of the first row is a series, rows
/// too short for it giving `0`.
pub open spec fn columns_spec(rows: Seq<Seq<Seq<char>>>) -> (Seq<Seq<char>>, Seq<Seq<Seq<char>>>) {
    let n = rows.len();
    if rows[0].len() == 1 {
        (Seq::new(n, |i: int| decimal((i + 1) as nat)), seq![Seq::new(n, |i: int| rows[i][0])])
    } else {
        (Seq::new(n, |i: int| rows[i][0]), Seq::new((rows[0].len() - 1) as nat, |c: int|
            Seq::new(n, |i: int| if c + 1 < rows[i].len() { rows[i][c + 1] } else { "0"@ })))
    }
}

/// The x values and series of a table, as text.
#[derive(Debug)]
pub struct Columns {
    pub x: Vec<String>,
    pub series: Vec<Vec<String>>,
}

/// The decimal text of `n`.
fn decimal_text(n: u64) -> (s: String)
    ensures
        s@ == decimal(n as nat),
{
    let mut v: Vec<char> = Vec::new();
    crate::text::push_decimal(&mut v, n);
    proof { assert(v@ =~= decimal(n as nat)); }
    string_from_chars(&v)
}

/// Arrange the rows of a table into x values and series (see `columns_spec`).
pub fn table_columns(table: &Table) -> (r: Columns)
    requires
        table.rows@.len() >= 1,
        forall|i: int| 0 <= i < table.rows@.len() ==> (#[trigger] table.rows@[i])@.len() >= 1,
    ensures
        string_views(r.x@) == columns_spec(rows_view(table.rows@)).0,
        r.series@.map_values(|s: Vec<String>| string_views(s@)) == columns_spec(rows_view(table.rows@)).1,
{
    let ghost rv = rows_view(table.rows@);
    let rows = &table.rows;
    let n = rows.len();
    let ncols = rows[0].len();
    proof {
        assert(rv[0].len() == ncols);
        assert forall|i: int| 0 <= i < n implies #[trigger] rv[i] == string_views(rows@[i]@) by {}
    }
    let mut x: Vec<String> = Vec::new();
    let mut series: Vec<Vec<String>> = Vec::new();
    if ncols == 1 {
        let mut y: Vec<String> = Vec::new();
        let mut i: usize = 0;
        while i < n
            invariant
                i <= n,
                n == rows@.len(),
                rv == rows_view(rows@),
                forall|k: int| 0 <= k < rows@.len() ==> (#[trigger] rows@[k])@.len() >= 1,
                string_views(x@) =~= Seq::new(i as nat, |k: int| decimal((k + 1) as nat)),
                string_views(y@) =~= Seq::new(i as nat, |k: int| rv[k][0]),
            decreases n - i,
        {
            proof { assert(usize::MAX <= u64::MAX); }
            let ghost bx = x@;
            let ghost prev_y = y@;
            x.push(decimal_text((i + 1) as u64));
            y.push(rows[i][0].clone());
            proof {
                assert(string_views(x@) =~= string_views(bx).push(x@.last()@));
                assert(string_views(y@) =~= string_views(prev_y).push(y@.last()@));
                assert(rv[i as int] == string_views(rows@[i as int]@));
                assert(rows@[i as int]@.len() >= 1);
                assert(rv[i as int][0] == rows@[i as int]@[0]@);
            }
            i = i + 1;
        }
        series.push(y);
        proof {
            assert(series@.map_values(|s: Vec<String>| string_views(s@)) =~= columns_spec(rv).1);
        }
    } else {
        let mut i: usize = 0;
        while i < n
            invariant
                i <= n,
                n == rows@.len(),
                rv == rows_view(rows@),
                forall|k: int| 0 <= k < rows@.len() ==> (#[trigger] rows@[k])@.len() >= 1,
                string_views(x@) =~= Seq::new(i as nat, |k: int| rv[k][0]),
            decreases n - i,
        {
            let ghost bx = x@;
            x.push(rows[i][0].clone());
            proof {
                assert(string_views(x@) =~= string_views(bx).push(x@.last()@));
                assert(rv[i as int] == string_views(rows@[i as int]@));
                assert(rows@[i as int]@.len() >= 1);
            }
            i = i + 1;
        }
        let mut col: usize = 1;
        while col < ncols
            invariant
                1 <= col <= ncols,
                n == rows@.len(),
                ncols == rv[0].len(),
                rv == rows_view(rows@),
                series@.map_values(|s: Vec<String>| string_views(s@)) =~= Seq::new((col - 1) as nat, |c: int|
                    Seq::new(n as nat, |i: int| if c + 1 < rv[i].len() { rv[i][c + 1] } else { "0"@ })),
            decreases ncols - col,
        {
            let mut y: Vec<String> = Vec::new();
            let mut i: usize = 0;
            while i < n
                invariant
                    i <= n,
                    n == rows@.len(),
                    rv == rows_view(rows@),
                    string_views(y@) =~= Seq::new(i as nat, |k: int| if col < rv[k].len() { rv[k][col as int] } else { "0"@ }),
                decreases n - i,
            {
                let ghost prev_y = y@;
                proof { assert(rv[i as int] == string_views(rows@[i as int]@)); }
                if col < rows[i].len() {
                    y.push(rows[i][col].clone());
                } else {
                    y.push(string_from_chars(&chars_of("0")));
                }
                proof {
                    assert(string_views(y@) =~= string_views(prev_y).push(y@.last()@));
                }
                i = i + 1;
            }
            let ghost bs = series@;
            series.push(y);
            proof {
                assert(series@.map_values(|s: Vec<String>| string_views(s@))
                    =~= bs.map_values(|s: Vec<String>| string_views(s@)).push(string_views(y@)));
            }
            col = col + 1;
        }
    }
    Columns { x, series }
}

} // verus!
