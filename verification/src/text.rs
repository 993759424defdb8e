//! Character-level helpers shared by the scanner, the renderer and the
//! history: code-point sequences, case folding for ASCII letters,
//! lexicographic orders, and path-string splitting.

use vstd::prelude::*;

verus! {

/// Code point of a character.
pub open spec fn code(c: char) -> u32 {
    c as u32
}

/// Code point with ASCII capital letters folded to lower case. This is the
/// crate's notion of case-insensitive matching; letters outside ASCII are
/// compared as they are.
pub open spec fn lower_code(c: char) -> u32 {
    if 65 <= c as u32 && c as u32 <= 90 {
        (c as u32 + 32) as u32
    } else {
        c as u32
    }
}

pub open spec fn codes(s: Seq<char>) -> Seq<u32> {
    s.map_values(|c: char| code(c))
}

pub open spec fn lower_codes(s: Seq<char>) -> Seq<u32> {
    s.map_values(|c: char| lower_code(c))
}

/// Strict lexicographic order on code-point sequences.
pub open spec fn lex_lt(a: Seq<u32>, b: Seq<u32>) -> bool
    decreases a.len(),
{
    if b.len() == 0 {
        false
    } else if a.len() == 0 {
        true
    } else if a[0] < b[0] {
        true
    } else if a[0] > b[0] {
        false
    } else {
        lex_lt(a.drop_first(), b.drop_first())
    }
}

/// Case-insensitive strict order on names.
pub open spec fn ci_lt(a: Seq<char>, b: Seq<char>) -> bool {
    lex_lt(lower_codes(a), lower_codes(b))
}

/// Case-sensitive strict order on strings, by code point.
pub open spec fn str_lt(a: Seq<char>, b: Seq<char>) -> bool {
    lex_lt(codes(a), codes(b))
}

pub open spec fn is_sep(c: char) -> bool {
    c == '/' || c == '\\'
}

/// The characters of `s`, one by one.
pub fn chars_of(s: &str) -> (r: Vec<char>)
    ensures
        r@ == s@,
{
    let n = s.unicode_len();
    let mut r: Vec<char> = Vec::new();
    let mut i: usize = 0;
    while i < n
        invariant
            i <= n,
            n == s@.len(),
            r@ == s@.take(i as int),
        decreases n - i,
    {
        let c = s.get_char(i);
        r.push(c);
        proof {
            assert(s@.take(i + 1) =~= s@.take(i as int).push(s@[i as int]));
        }
        i = i + 1;
    }
    proof {
        assert(s@.take(n as int) =~= s@);
    }
    r
}

/// The code points of `s`, in order.
pub fn codes_of(s: &str) -> (r: Vec<u32>)
    ensures
        r@ == codes(s@),
{
    let n = s.unicode_len();
    let mut r: Vec<u32> = Vec::new();
    let mut i: usize = 0;
    while i < n
        invariant
            i <= n,
            n == s@.len(),
            r@ == codes(s@.take(i as int)),
        decreases n - i,
    {
        let c = s.get_char(i);
        r.push(c as u32);
        proof {
            assert(codes(s@.take(i + 1)) =~= codes(s@.take(i as int)).push(code(s@[i as int])));
        }
        i = i + 1;
    }
    proof {
        assert(s@.take(n as int) =~= s@);
    }
    r
}

/// The folded code points of `s`, in order.
pub fn lower_codes_of(s: &str) -> (r: Vec<u32>)
    ensures
        r@ == lower_codes(s@),
{
    let n = s.unicode_len();
    let mut r: Vec<u32> = Vec::new();
    let mut i: usize = 0;
    while i < n
        invariant
            i <= n,
            n == s@.len(),
            r@ == lower_codes(s@.take(i as int)),
        decreases n - i,
    {
        let c = s.get_char(i);
        let u = c as u32;
        if 65 <= u && u <= 90 {
            r.push(u + 32);
        } else {
            r.push(u);
        }
        proof {
            assert(lower_codes(s@.take(i + 1)) =~= lower_codes(s@.take(i as int)).push(
                lower_code(s@[i as int]),
            ));
        }
        i = i + 1;
    }
    proof {
        assert(s@.take(n as int) =~= s@);
    }
    r
}

/// Whether two code-point sequences are equal.
pub fn eq_codes(a: &Vec<u32>, b: &Vec<u32>) -> (r: bool)
    ensures
        r == (a@ == b@),
{
    if a.len() != b.len() {
        return false;
    }
    let mut i: usize = 0;
    while i < a.len()
        invariant
            i <= a.len(),
            a.len() == b.len(),
            forall|k: int| 0 <= k < i ==> a@[k] == b@[k],
        decreases a.len() - i,
    {
        if a[i] != b[i] {
            return false;
        }
        i = i + 1;
    }
    proof {
        assert(a@ =~= b@);
    }
    true
}

/// Whether `a` comes strictly before `b` in lexicographic code order.
pub fn lt_codes(a: &Vec<u32>, b: &Vec<u32>) -> (r: bool)
    ensures
        r == lex_lt(a@, b@),
{
    let r = lt_codes_from(a, b, 0);
    proof {
        assert(a@.skip(0) =~= a@);
        assert(b@.skip(0) =~= b@);
    }
    r
}

fn lt_codes_from(a: &Vec<u32>, b: &Vec<u32>, i: usize) -> (r: bool)
    requires
        i <= a.len(),
        i <= b.len(),
    ensures
        r == lex_lt(a@.skip(i as int), b@.skip(i as int)),
    decreases a.len() - i,
{
    if i == b.len() {
        false
    } else if i == a.len() {
        true
    } else if a[i] < b[i] {
        true
    } else if a[i] > b[i] {
        false
    } else {
        let r = lt_codes_from(a, b, i + 1);
        proof {
            assert(a@.skip(i as int).drop_first() =~= a@.skip(i + 1));
            assert(b@.skip(i as int).drop_first() =~= b@.skip(i + 1));
        }
        r
    }
}

/// Characters with the same code point are the same character.
pub proof fn lemma_code_inj(c1: char, c2: char)
    requires
        c1 as u32 == c2 as u32,
    ensures
        c1 == c2,
{
}

/// `lex_lt` never holds between a sequence and itself.
pub proof fn lemma_lex_irrefl(a: Seq<u32>)
    ensures
        !lex_lt(a, a),
    decreases a.len(),
{
    if a.len() > 0 {
        lemma_lex_irrefl(a.drop_first());
    }
}

/// `lex_lt` is transitive.
pub proof fn lemma_lex_trans(a: Seq<u32>, b: Seq<u32>, c: Seq<u32>)
    requires
        lex_lt(a, b),
        lex_lt(b, c),
    ensures
        lex_lt(a, c),
    decreases a.len() + b.len() + c.len(),
{
    if a.len() > 0 && b.len() > 0 && c.len() > 0 && a[0] == b[0] && b[0] == c[0] {
        lemma_lex_trans(a.drop_first(), b.drop_first(), c.drop_first());
    }
}

/// Two sequences that `lex_lt` orders in neither direction are equal.
pub proof fn lemma_lex_total(a: Seq<u32>, b: Seq<u32>)
    requires
        !lex_lt(a, b),
        !lex_lt(b, a),
    ensures
        a == b,
    decreases a.len(),
{
    if a.len() == 0 {
        assert(b.len() == 0);
        assert(a =~= b);
    } else {
        assert(b.len() > 0);
        assert(a[0] == b[0]);
        lemma_lex_total(a.drop_first(), b.drop_first());
        assert(a =~= b) by {
            assert(a.drop_first() =~= b.drop_first());
            assert(a.len() == b.len());
            assert(forall|i: int|
                1 <= i < a.len() ==> a[i] == a.drop_first()[i - 1] && b[i] == b.drop_first()[i
                    - 1]);
        }
    }
}

/// Whether two strings hold the same characters.
pub fn str_eq(a: &str, b: &str) -> (r: bool)
    ensures
        r == (a@ == b@),
{
    let ac = chars_of(a);
    let bc = chars_of(b);
    if ac.len() != bc.len() {
        proof {
            assert(a@.len() != b@.len());
        }
        return false;
    }
    let mut i: usize = 0;
    while i < ac.len()
        invariant
            i <= ac.len(),
            ac.len() == bc.len(),
            ac@ == a@,
            bc@ == b@,
            forall|k: int| 0 <= k < i ==> a@[k] == b@[k],
        decreases ac.len() - i,
    {
        if ac[i] != bc[i] {
            return false;
        }
        i = i + 1;
    }
    proof {
        assert(a@ =~= b@);
    }
    true
}

/// Whether `a` comes strictly before `b` in case-sensitive code order.
pub fn str_lt_exec(a: &str, b: &str) -> (r: bool)
    ensures
        r == str_lt(a@, b@),
{
    let ac = codes_of(a);
    let bc = codes_of(b);
    lt_codes(&ac, &bc)
}

/// Whether a name is hidden: it begins with a period.
pub open spec fn spec_hidden(name: Seq<char>) -> bool {
    name.len() > 0 && name[0] == '.'
}

/// Whether a name begins with a period, the convention for hidden entries.
pub fn is_hidden(name: &str) -> (r: bool)
    ensures
        r == spec_hidden(name@),
{
    if name.unicode_len() == 0 {
        false
    } else {
        name.get_char(0) == '.'
    }
}

/// Whether a canonical path lies at or below a canonical root: the two are
/// equal, or the root is a proper prefix ending at a separator.
pub open spec fn spec_within_root(c: Seq<char>, r: Seq<char>) -> bool {
    c == r || (c.len() > r.len() && c.take(r.len() as int) == r && ((r.len() > 0 && is_sep(
        r[r.len() - 1],
    )) || is_sep(c[r.len() as int])))
}

/// Whether canonical path `candidate` lies at or below canonical path `root`.
pub fn is_within_root(candidate: &str, root: &str) -> (res: bool)
    ensures
        res == spec_within_root(candidate@, root@),
{
    let c = chars_of(candidate);
    let r = chars_of(root);
    let cn = c.len();
    let rn = r.len();
    if cn < rn {
        return false;
    }
    let mut i: usize = 0;
    while i < rn
        invariant
            i <= rn <= cn,
            cn == candidate@.len(),
            rn == root@.len(),
            c@ == candidate@,
            r@ == root@,
            forall|k: int| 0 <= k < i ==> candidate@[k] == root@[k],
        decreases rn - i,
    {
        if c[i] != r[i] {
            return false;
        }
        i = i + 1;
    }
    if cn == rn {
        proof {
            assert(candidate@ =~= root@);
        }
        return true;
    }
    proof {
        assert(candidate@.take(rn as int) =~= root@);
    }
    if rn > 0 {
        let last = r[rn - 1];
        if last == '/' || last == '\\' {
            return true;
        }
    }
    let next = c[rn];
    next == '/' || next == '\\'
}

/// The part of a path after its last separator; the whole path when it has
/// none, empty when it ends with one.
pub open spec fn spec_base_name(p: Seq<char>) -> Seq<char>
    decreases p.len(),
{
    if p.len() == 0 {
        Seq::empty()
    } else if is_sep(p.last()) {
        Seq::empty()
    } else {
        spec_base_name(p.drop_last()).push(p.last())
    }
}

/// The part of a path before its last separator; empty when it has none.
pub open spec fn spec_parent_dir(p: Seq<char>) -> Seq<char>
    decreases p.len(),
{
    if p.len() == 0 {
        Seq::empty()
    } else if is_sep(p.last()) {
        p.drop_last()
    } else {
        spec_parent_dir(p.drop_last())
    }
}

proof fn lemma_split_at_sep(p: Seq<char>, j: int)
    requires
        0 <= j <= p.len(),
        forall|k: int| j <= k < p.len() ==> !is_sep(p[k]),
        j > 0 ==> is_sep(p[j - 1]),
    ensures
        spec_base_name(p) == p.skip(j),
        j > 0 ==> spec_parent_dir(p) == p.take(j - 1),
        j == 0 ==> spec_parent_dir(p) == Seq::<char>::empty(),
    decreases p.len(),
{
    if j == p.len() {
        if p.len() == 0 {
            assert(spec_base_name(p) =~= p.skip(j));
        } else {
            assert(is_sep(p.last()));
            assert(spec_base_name(p) =~= p.skip(j));
            assert(spec_parent_dir(p) == p.drop_last());
            assert(p.drop_last() =~= p.take(j - 1));
        }
    } else {
        assert(!is_sep(p[p.len() - 1]));
        lemma_split_at_sep(p.drop_last(), j);
        assert(p.drop_last().skip(j) =~= p.skip(j).drop_last());
        assert(spec_base_name(p) == spec_base_name(p.drop_last()).push(p.last()));
        assert(p.skip(j).drop_last().push(p.last()) =~= p.skip(j));
        if j > 0 {
            assert(p.drop_last().take(j - 1) =~= p.take(j - 1));
        }
    }
}

/// Index just past the last separator of `p`: every later character is not a
/// separator, and the one before (when the index is positive) is one.
fn after_last_sep(p: &str) -> (j: usize)
    ensures
        j <= p@.len(),
        forall|k: int| j <= k < p@.len() ==> !is_sep(p@[k]),
        j > 0 ==> is_sep(p@[j - 1]),
{
    let n = p.unicode_len();
    let mut j: usize = n;
    loop
        invariant
            j <= n,
            n == p@.len(),
            forall|k: int| j <= k < p@.len() ==> !is_sep(p@[k]),
        decreases j,
    {
        if j == 0 {
            return 0;
        }
        let c = p.get_char(j - 1);
        if c == '/' || c == '\\' {
            return j;
        }
        j = j - 1;
    }
}

/// The part of `path` after its last separator.
pub fn base_name(path: &str) -> (r: String)
    ensures
        r@ == spec_base_name(path@),
{
    let n = path.unicode_len();
    let j = after_last_sep(path);
    let s = path.substring_char(j, n);
    proof {
        lemma_split_at_sep(path@, j as int);
        assert(path@.subrange(j as int, n as int) =~= path@.skip(j as int));
    }
    s.to_owned()
}

/// The part of `path` before its last separator.
pub fn parent_dir(path: &str) -> (r: String)
    ensures
        r@ == spec_parent_dir(path@),
{
    let j = after_last_sep(path);
    proof {
        lemma_split_at_sep(path@, j as int);
    }
    if j == 0 {
        let r = String::new();
        r
    } else {
        let s = path.substring_char(0, j - 1);
        proof {
            assert(path@.subrange(0, j - 1) =~= path@.take(j - 1));
        }
        s.to_owned()
    }
}

} // verus!
