//! The workspace model: the workspace root found from the working
//! directory's ancestors, and a directory tree of entries, sorted the way
//! the file panel shows them. All file-system reading happens outside this
//! library; these functions work on the listings they are handed.

use vstd::prelude::*;
use vstd::string::StrSliceExecFns;
use vstd::string::StringExecFns;
use vstd::multiset::Multiset;

verus! {

/// A workspace root: its path and whether version control was found there.
pub struct WorkspaceInfo {
    /// The path to this workspace.
    pub path: String,
    /// Whether this workspace has version control.
    pub has_vc: bool,
}

/// The workspace chosen from a working directory and its ancestors: the
/// outermost ancestor that has version control or, when none has, the
/// working directory itself. `anc` holds `(path, has version control)` for
/// each ancestor, innermost first.
pub open spec fn spec_find_workspace(cwd: Seq<char>, anc: Seq<(Seq<char>, bool)>) -> (
    Seq<char>,
    bool,
)
    decreases anc.len(),
{
    if anc.len() == 0 {
        (cwd, false)
    } else if anc.last().1 {
        (anc.last().0, true)
    } else {
        spec_find_workspace(cwd, anc.drop_last())
    }
}

/// The ancestor probe record as a pair of plain values.
pub open spec fn info_model(w: WorkspaceInfo) -> (Seq<char>, bool) {
    (w.path@, w.has_vc)
}

/// Finds the current workspace: the caller passes the working directory and
/// each of its ancestors (innermost first) together with whether that
/// ancestor holds a version-control directory; the outermost ancestor under
/// version control wins, and without one the working directory itself is
/// the workspace.
pub fn find_workspace(cwd: String, ancestors: Vec<WorkspaceInfo>) -> (r: WorkspaceInfo)
    ensures
        info_model(r) == spec_find_workspace(
            cwd@,
            ancestors@.map_values(|w: WorkspaceInfo| info_model(w)),
        ),
{
    let ghost anc = ancestors@.map_values(|w: WorkspaceInfo| info_model(w));
    let mut path = cwd;
    let mut has_vc = false;
    proof {
        assert(anc.take(0) =~= Seq::<(Seq<char>, bool)>::empty());
    }
    let mut i: usize = 0;
    while i < ancestors.len()
        invariant
            i <= ancestors@.len(),
            anc == ancestors@.map_values(|w: WorkspaceInfo| info_model(w)),
            (path@, has_vc) == spec_find_workspace(cwd@, anc.take(i as int)),
        decreases ancestors@.len() - i,
    {
        proof {
            assert(anc.take(i + 1).drop_last() =~= anc.take(i as int));
            assert(anc.take(i + 1).last() == anc[i as int]);
        }
        if ancestors[i].has_vc {
            path = ancestors[i].path.clone();
            has_vc = true;
        }
        i += 1;
    }
    proof {
        assert(anc.take(anc.len() as int) =~= anc);
    }
    WorkspaceInfo { path, has_vc }
}

/// The file name of a path: the part after the last separator, or the whole
/// path when it has none.
pub open spec fn file_name(p: Seq<char>) -> Seq<char>
    decreases p.len(),
{
    if p.len() == 0 {
        p
    } else if p.last() == '/' {
        Seq::empty()
    } else {
        file_name(p.drop_last()).push(p.last())
    }
}

/// When no separator occurs at or after position `k`, and `k` is the start
/// or preceded by a separator, the file name is the suffix from `k` on.
pub proof fn lemma_file_name_suffix(p: Seq<char>, k: int)
    requires
        0 <= k <= p.len(),
        forall|j: int| k <= j < p.len() ==> p[j] != '/',
        k == 0 || p[k - 1] == '/',
    ensures
        file_name(p) == p.skip(k),
    decreases p.len(),
{
    if k == p.len() {
        if k == 0 {
            assert(file_name(p) =~= p.skip(k));
        } else {
            assert(p.last() == p[k - 1]);
            assert(file_name(p) =~= p.skip(k));
        }
    } else {
        assert(p.last() != '/');
        if p.len() == 0 {
        } else {
            lemma_file_name_suffix(p.drop_last(), k);
            assert(file_name(p) == file_name(p.drop_last()).push(p.last()));
            assert(file_name(p.drop_last()).push(p.last()) =~= p.skip(k));
        }
    }
}

/// The file name of `p`, computed from its characters.
pub fn path_file_name(p: &String) -> (r: String)
    ensures
        r@ == file_name(p@),
{
    let s = p.as_str();
    let n = s.unicode_len();
    let mut k: usize = n;
    while k > 0
        invariant
            k <= n,
            n == p@.len(),
            s@ == p@,
            forall|j: int| k <= j < n ==> p@[j] != '/',
        ensures
            k <= n,
            forall|j: int| k <= j < n ==> p@[j] != '/',
            k == 0 || p@[k - 1] == '/',
        decreases k,
    {
        if s.get_char(k - 1) == '/' {
            break ;
        }
        k -= 1;
    }
    proof {
        lemma_file_name_suffix(p@, k as int);
    }
    let name = s.substring_char(k, n);
    name.to_owned()
}

/// One entry of the workspace tree: a file, a directory with the children
/// that were read below it, or a marker standing in for a directory's
/// unread contents.
pub enum Entry {
    File { path: String, level: usize },
    Dir { path: String, children: Vec<Entry>, level: usize },
    ContinuationMarker { parent: String, level: usize },
}

/// The path an entry reports: its own path, or the parent directory's for a
/// continuation marker.
pub open spec fn spec_entry_path(e: Entry) -> Seq<char> {
    match e {
        Entry::File { path, .. } => path@,
        Entry::Dir { path, .. } => path@,
        Entry::ContinuationMarker { parent, .. } => parent@,
    }
}

/// The tree depth an entry reports.
pub open spec fn spec_entry_level(e: Entry) -> int {
    match e {
        Entry::File { level, .. } => level as int,
        Entry::Dir { level, .. } => level as int,
        Entry::ContinuationMarker { level, .. } => level as int,
    }
}

/// The name an entry shows: an ellipsis for a continuation marker, the file
/// name of its path otherwise.
pub open spec fn spec_entry_name(e: Entry) -> Seq<char> {
    match e {
        Entry::ContinuationMarker { .. } => seq!['.', '.', '.'],
        _ => file_name(spec_entry_path(e)),
    }
}

impl Entry {
    /// Whether this entry is a directory.
    pub fn is_dir(&self) -> (r: bool)
        ensures
            r == (*self is Dir),
    {
        match self {
            Entry::Dir { .. } => true,
            _ => false,
        }
    }

    /// The path this entry reports: its own, or the parent directory's for
    /// a continuation marker.
    pub fn path(&self) -> (r: &String)
        ensures
            r@ == spec_entry_path(*self),
    {
        match self {
            Entry::File { path, .. } => path,
            Entry::Dir { path, .. } => path,
            Entry::ContinuationMarker { parent, .. } => parent,
        }
    }

    /// The name this entry shows in the file panel: the file name of its
    /// path, or an ellipsis for a continuation marker.
    pub fn name(&self) -> (r: String)
        ensures
            r@ == spec_entry_name(*self),
    {
        match self {
            Entry::ContinuationMarker { .. } => {
                let s = "...".to_owned();
                proof {
                    reveal_strlit("...");
                    assert(s@ =~= seq!['.', '.', '.']);
                }
                s
            },
            _ => path_file_name(self.path()),
        }
    }

    /// The tree depth this entry sits at.
    pub fn level(&self) -> (r: usize)
        ensures
            r as int == spec_entry_level(*self),
    {
        match self {
            Entry::File { level, .. } => *level,
            Entry::Dir { level, .. } => *level,
            Entry::ContinuationMarker { level, .. } => *level,
        }
    }
}

/// Lexicographic order on character sequences, by scalar value; the empty
/// sequence comes first.
pub open spec fn lex_le(a: Seq<char>, b: Seq<char>) -> bool
    decreases a.len(),
{
    if a.len() == 0 {
        true
    } else if b.len() == 0 {
        false
    } else if a.first() == b.first() {
        lex_le(a.drop_first(), b.drop_first())
    } else {
        a.first() < b.first()
    }
}

/// The lexicographic order relates every pair, one way or the other.
pub proof fn lemma_lex_le_total(a: Seq<char>, b: Seq<char>)
    ensures
        lex_le(a, b) || lex_le(b, a),
    decreases a.len(),
{
    if a.len() > 0 && b.len() > 0 && a.first() == b.first() {
        lemma_lex_le_total(a.drop_first(), b.drop_first());
    }
}

/// The lexicographic order is transitive.
pub proof fn lemma_lex_le_trans(a: Seq<char>, b: Seq<char>, c: Seq<char>)
    requires
        lex_le(a, b),
        lex_le(b, c),
    ensures
        lex_le(a, c),
    decreases a.len(),
{
    if a.len() > 0 && b.len() > 0 && c.len() > 0 && a.first() == b.first() && b.first()
        == c.first() {
        lemma_lex_le_trans(a.drop_first(), b.drop_first(), c.drop_first());
    }
}

/// Whether `a` sorts at or before `b` in the file panel: directories before
/// files, and same kinds by file name.
pub open spec fn entry_le(a: Entry, b: Entry) -> bool {
    if (a is Dir) == (b is Dir) {
        lex_le(file_name(spec_entry_path(a)), file_name(spec_entry_path(b)))
    } else {
        a is Dir
    }
}

/// The entry order relates every pair, one way or the other.
pub proof fn lemma_entry_le_total(a: Entry, b: Entry)
    ensures
        entry_le(a, b) || entry_le(b, a),
{
    if (a is Dir) == (b is Dir) {
        lemma_lex_le_total(file_name(spec_entry_path(a)), file_name(spec_entry_path(b)));
    }
}

/// The entry order is transitive.
pub proof fn lemma_entry_le_trans(a: Entry, b: Entry, c: Entry)
    requires
        entry_le(a, b),
        entry_le(b, c),
    ensures
        entry_le(a, c),
{
    if (a is Dir) == (b is Dir) && (b is Dir) == (c is Dir) {
        lemma_lex_le_trans(
            file_name(spec_entry_path(a)),
            file_name(spec_entry_path(b)),
            file_name(spec_entry_path(c)),
        );
    }
}

/// Whether `a@` sorts at or before `b@` lexicographically.
fn lex_le_exec(a: &String, b: &String) -> (r: bool)
    ensures
        r == lex_le(a@, b@),
{
    let sa = a.as_str();
    let sb = b.as_str();
    let na = sa.unicode_len();
    let nb = sb.unicode_len();
    proof {
        assert(a@.skip(0) =~= a@);
        assert(b@.skip(0) =~= b@);
    }
    let mut i: usize = 0;
    loop
        invariant
            i <= na,
            i <= nb,
            na == a@.len(),
            nb == b@.len(),
            sa@ == a@,
            sb@ == b@,
            lex_le(a@, b@) == lex_le(a@.skip(i as int), b@.skip(i as int)),
        decreases na - i,
    {
        if i >= na {
            proof {
                assert(a@.skip(i as int).len() == 0);
            }
            return true;
        }
        if i >= nb {
            proof {
                assert(b@.skip(i as int).len() == 0);
            }
            return false;
        }
        let ca = sa.get_char(i);
        let cb = sb.get_char(i);
        proof {
            assert(a@.skip(i as int).first() == a@[i as int]);
            assert(b@.skip(i as int).first() == b@[i as int]);
            assert(a@.skip(i as int).drop_first() =~= a@.skip(i + 1));
            assert(b@.skip(i as int).drop_first() =~= b@.skip(i + 1));
        }
        if ca != cb {
            return ca < cb;
        }
        i += 1;
    }
}

/// Whether `a` sorts at or before `b` in the file panel.
fn entry_le_exec(a: &Entry, b: &Entry) -> (r: bool)
    ensures
        r == entry_le(*a, *b),
{
    let ad = a.is_dir();
    let bd = b.is_dir();
    if ad == bd {
        let an = path_file_name(a.path());
        let bn = path_file_name(b.path());
        lex_le_exec(&an, &bn)
    } else {
        ad
    }
}

/// A sequence of entries in panel order: every earlier entry sorts at or
/// before every later one.
pub open spec fn sorted_entries(es: Seq<Entry>) -> bool {
    forall|i: int, j: int| 0 <= i < j < es.len() ==> entry_le(es[i], es[j])
}

/// What an entry is on the surface: its path, whether it is a directory,
/// and its depth.
pub open spec fn spec_entry_shallow(e: Entry) -> (Seq<char>, bool, int) {
    (spec_entry_path(e), e is Dir, spec_entry_level(e))
}

/// The surface of each entry of a list, in order.
pub open spec fn shallows_of(es: Seq<Entry>) -> Seq<(Seq<char>, bool, int)> {
    es.map_values(|e: Entry| spec_entry_shallow(e))
}

/// Inserting an element anywhere adds exactly it to a sequence's multiset.
proof fn lemma_insert_to_multiset<A>(s: Seq<A>, pos: int, x: A)
    requires
        0 <= pos <= s.len(),
    ensures
        s.insert(pos, x).to_multiset() == s.to_multiset().insert(x),
{
    broadcast use vstd::seq_lib::group_to_multiset_ensures;

    let pre = s.take(pos);
    let post = s.skip(pos);
    assert(s.insert(pos, x) =~= pre + (seq![x] + post));
    assert(s =~= pre + post);
    vstd::seq_lib::lemma_multiset_commutative(pre, seq![x] + post);
    vstd::seq_lib::lemma_multiset_commutative(seq![x], post);
    vstd::seq_lib::lemma_multiset_commutative(pre, post);
    assert(seq![x] =~= Seq::<A>::empty().push(x));
    assert(seq![x].to_multiset() =~= Multiset::<A>::empty().insert(x));
    assert(pre.to_multiset().add(seq![x].to_multiset().add(post.to_multiset()))
        =~= pre.to_multiset().add(post.to_multiset()).insert(x));
}

/// Removing the first element takes exactly it out of a sequence's
/// multiset.
proof fn lemma_remove_first_to_multiset<A>(s: Seq<A>)
    requires
        s.len() > 0,
    ensures
        s.to_multiset() == s.remove(0).to_multiset().insert(s[0]),
{
    broadcast use vstd::seq_lib::group_to_multiset_ensures;

    assert(s.remove(0) =~= s.skip(1));
    lemma_insert_to_multiset(s.skip(1), 0, s[0]);
    assert(s.skip(1).insert(0, s[0]) =~= s);
}

/// Where a stable insertion places `x` in `s`: before the first element
/// that does not sort at or before `x`, so after every equal key already
/// present.
pub open spec fn spec_insert_pos(s: Seq<Entry>, x: Entry) -> int
    decreases s.len(),
{
    if s.len() == 0 {
        0
    } else if !entry_le(s.first(), x) {
        0
    } else {
        1 + spec_insert_pos(s.drop_first(), x)
    }
}

/// The insertion position is the first index whose element does not sort
/// at or before `x`.
pub proof fn lemma_insert_pos_props(s: Seq<Entry>, x: Entry)
    ensures
        0 <= spec_insert_pos(s, x) <= s.len(),
        forall|i: int| 0 <= i < spec_insert_pos(s, x) ==> entry_le(#[trigger] s[i], x),
        spec_insert_pos(s, x) < s.len() ==> !entry_le(s[spec_insert_pos(s, x)], x),
    decreases s.len(),
{
    if s.len() > 0 && entry_le(s.first(), x) {
        lemma_insert_pos_props(s.drop_first(), x);
        let ip = spec_insert_pos(s, x);
        assert forall|i: int| 0 <= i < ip implies entry_le(#[trigger] s[i], x) by {
            if i > 0 {
                assert(s.drop_first()[i - 1] == s[i]);
            }
        }
        if ip < s.len() {
            assert(s.drop_first()[ip - 1] == s[ip]);
        }
    }
}

/// The panel order of a list of entries: each entry, in the order given,
/// stably inserted into the sorted list of its predecessors.
pub open spec fn spec_sort_entries(s: Seq<Entry>) -> Seq<Entry>
    decreases s.len(),
{
    if s.len() == 0 {
        s
    } else {
        let prev = spec_sort_entries(s.drop_last());
        prev.insert(spec_insert_pos(prev, s.last()), s.last())
    }
}

/// Sorts entries into panel order: directories first, then by file name,
/// stably. The result is exactly the insertion sort of the given entries.
fn sort_entries(v: Vec<Entry>) -> (r: Vec<Entry>)
    ensures
        r@ == spec_sort_entries(v@),
        r@.len() == v@.len(),
        sorted_entries(r@),
        r@.to_multiset() == v@.to_multiset(),
        shallows_of(r@).to_multiset() == shallows_of(v@).to_multiset(),
{
    let mut out: Vec<Entry> = Vec::new();
    let mut rest = v;
    proof {
        broadcast use vstd::seq_lib::group_to_multiset_ensures;

        assert(out@.to_multiset().add(rest@.to_multiset()) =~= v@.to_multiset());
        assert(shallows_of(out@) =~= Seq::<(Seq<char>, bool, int)>::empty());
        assert(shallows_of(out@).to_multiset().add(shallows_of(rest@).to_multiset())
            =~= shallows_of(v@).to_multiset());
    }
    proof {
        assert(v@.take(0) =~= Seq::<Entry>::empty());
    }
    while rest.len() > 0
        invariant
            out@.len() + rest@.len() == v@.len(),
            forall|j: int| 0 <= j < rest@.len() ==> rest@[j] == v@[out@.len() + j],
            out@ == spec_sort_entries(v@.take(out@.len() as int)),
            sorted_entries(out@),
            out@.to_multiset().add(rest@.to_multiset()) == v@.to_multiset(),
            shallows_of(out@).to_multiset().add(shallows_of(rest@).to_multiset())
                == shallows_of(v@).to_multiset(),
        decreases rest@.len(),
    {
        let ghost k = out@.len() as int;
        let ghost rest0 = rest@;
        let ghost out0 = out@;
        let x = rest.remove(0);
        proof {
            assert(x == v@[k]);
        }
        let mut pos: usize = 0;
        loop
            invariant
                pos <= out@.len(),
                out@ == out0,
                forall|i: int| 0 <= i < pos ==> entry_le(out@[i], x),
            ensures
                pos <= out@.len(),
                out@ == out0,
                forall|i: int| 0 <= i < pos ==> entry_le(out@[i], x),
                pos == out@.len() || !entry_le(out@[pos as int], x),
            decreases out@.len() - pos,
        {
            if pos >= out.len() {
                break ;
            }
            if !entry_le_exec(&out[pos], &x) {
                break ;
            }
            pos += 1;
        }
        proof {
            if (pos as int) < out0.len() {
                lemma_entry_le_total(out0[pos as int], x);
            }
            lemma_insert_pos_props(out0, x);
            let ip = spec_insert_pos(out0, x);
            if pos < ip {
                assert(entry_le(out0[pos as int], x));
                assert(false);
            } else if ip < pos {
                assert(entry_le(out0[ip], x));
                assert(false);
            }
            assert(pos as int == ip);
        }
        out.insert(pos, x);
        proof {
            out0.insert_ensures(pos as int, x);
            assert forall|i: int, j: int| 0 <= i < j < out@.len() implies entry_le(
                out@[i],
                out@[j],
            ) by {
                if j < pos {
                    assert(out@[i] == out0[i] && out@[j] == out0[j]);
                } else if j == pos {
                    assert(out@[j] == x);
                    if i < pos {
                        assert(out@[i] == out0[i]);
                    }
                } else {
                    assert(out@[j] == out0[j - 1]);
                    if i < pos {
                        assert(out@[i] == out0[i]);
                        if pos as int <= j - 1 {
                            lemma_entry_le_total(out0[pos as int], out0[pos as int]);
                            lemma_entry_le_trans(x, out0[pos as int], out0[j - 1]);
                            lemma_entry_le_trans(out0[i], x, out@[j]);
                        }
                    } else if i == pos {
                        assert(out@[i] == x);
                        lemma_entry_le_total(out0[pos as int], out0[pos as int]);
                        lemma_entry_le_trans(x, out0[pos as int], out0[j - 1]);
                    } else {
                        assert(out@[i] == out0[i - 1]);
                    }
                }
            }
            lemma_remove_first_to_multiset(rest0);
            lemma_insert_to_multiset(out0, pos as int, x);
            assert(out@.to_multiset().add(rest@.to_multiset()) =~= v@.to_multiset());
            assert(shallows_of(out@) =~= shallows_of(out0).insert(
                pos as int,
                spec_entry_shallow(x),
            ));
            assert(shallows_of(rest0) =~= shallows_of(rest@).insert(0, spec_entry_shallow(x)));
            lemma_insert_to_multiset(shallows_of(out0), pos as int, spec_entry_shallow(x));
            lemma_insert_to_multiset(shallows_of(rest@), 0, spec_entry_shallow(x));
            assert(shallows_of(out@).to_multiset().add(shallows_of(rest@).to_multiset())
                =~= shallows_of(v@).to_multiset());
            assert(v@.take(k + 1).drop_last() =~= v@.take(k));
            assert(v@.take(k + 1).last() == v@[k]);
            assert(out@ == spec_sort_entries(v@.take(k + 1)));
        }
    }
    proof {
        broadcast use vstd::seq_lib::group_to_multiset_ensures;

        assert(v@.take(v@.len() as int) =~= v@);
        assert(rest@.to_multiset() =~= Multiset::<Entry>::empty());
        assert(shallows_of(rest@) =~= Seq::<(Seq<char>, bool, int)>::empty());
        assert(shallows_of(rest@).to_multiset() =~= Multiset::<(Seq<char>, bool, int)>::empty());
        assert(out@.to_multiset() =~= v@.to_multiset());
        assert(shallows_of(out@).to_multiset() =~= shallows_of(v@).to_multiset());
    }
    out
}

/// One raw directory listing entry, as the file system reports it: a path,
/// whether it is a directory, and — where the caller read deeper — the raw
/// listing of its contents.
pub struct RawEntry {
    pub path: String,
    pub is_dir: bool,
    pub children: Vec<RawEntry>,
}

/// The surface of a raw entry at a given depth.
pub open spec fn raw_shallow(e: RawEntry, level: int) -> (Seq<char>, bool, int) {
    (e.path@, e.is_dir, level)
}

/// The surface of each raw entry of a listing, in order.
pub open spec fn raw_shallows(raws: Seq<RawEntry>, level: int) -> Seq<(Seq<char>, bool, int)> {
    raws.map_values(|e: RawEntry| raw_shallow(e, level))
}

/// A tree of entries whose every directory lists its children in panel
/// order, at every depth.
pub open spec fn entry_tree_sorted(e: Entry) -> bool
    decreases e,
{
    match e {
        Entry::Dir { children, .. } => sorted_entries(children@) && (forall|i: int|
            0 <= i < children@.len() ==> entry_tree_sorted(#[trigger] children@[i])),
        _ => true,
    }
}

/// `e` is the built form of `raw` at depth `level`: the same path and kind
/// at that depth and, for a directory within the depth limit, children
/// that are — in panel order — the built forms of exactly its raw
/// children; past the limit, a single continuation marker in their place.
pub open spec fn entry_matches_raw(e: Entry, raw: RawEntry, level: int, limit: int) -> bool
    decreases raw, 0int,
{
    &&& (e is Dir) == raw.is_dir
    &&& spec_entry_path(e) == raw.path@
    &&& spec_entry_level(e) == level
    &&& (e matches Entry::Dir { children, .. } ==> (if level < limit {
        &&& children@.len() == raw.children@.len()
        &&& sorted_entries(children@)
        &&& shallows_of(children@).to_multiset() == raw_shallows(
            raw.children@,
            level + 1,
        ).to_multiset()
        &&& entries_match_raws(children@, raw.children@, level + 1, limit)
    } else {
        &&& children@.len() == 1
        &&& children@[0] is ContinuationMarker
        &&& spec_entry_path(children@[0]) == raw.path@
        &&& spec_entry_level(children@[0]) == level
    }))
}

/// `e` is the built form of at least one raw entry of `raws`.
pub open spec fn entry_from_some(e: Entry, raws: Seq<RawEntry>, level: int, limit: int) -> bool
    decreases raws, 0int,
{
    exists|j: int|
        0 <= j < raws.len() && entry_matches_raw(e, #[trigger] raws[j], level, limit)
}

/// Every entry of `es` is the built form of some raw entry of `raws`.
pub open spec fn entries_match_raws(
    es: Seq<Entry>,
    raws: Seq<RawEntry>,
    level: int,
    limit: int,
) -> bool
    decreases raws, 1int,
{
    forall|k: int| 0 <= k < es.len() ==> entry_from_some(#[trigger] es[k], raws, level, limit)
}

/// Builds the tree entry for one raw listing entry. A file stays a file; a
/// directory within the depth limit gets its children built and sorted, and
/// one at the limit gets a single continuation marker in their place.
fn build_one(e: RawEntry, level: usize, limit: usize) -> (r: Entry)
    ensures
        entry_matches_raw(r, e, level as int, limit as int),
        entry_tree_sorted(r),
    decreases e,
{
    if e.is_dir {
        let kids: Vec<Entry>;
        let path: String;
        if level < limit {
            kids = build_entries(e.children, level + 1, limit);
            path = e.path;
        } else {
            path = e.path;
            let mut m: Vec<Entry> = Vec::new();
            m.push(Entry::ContinuationMarker { parent: path.clone(), level });
            kids = m;
            proof {
                assert(entry_tree_sorted(kids@[0]));
            }
        }
        let r = Entry::Dir { path, children: kids, level };
        proof {
            assert(r matches Entry::Dir { children, .. } && children@ == kids@);
            assert(entry_tree_sorted(r));
        }
        r
    } else {
        Entry::File { path: e.path, level }
    }
}

/// Builds the sorted entry tree for a raw listing at the given depth:
/// every raw entry becomes one tree entry (same path, same kind, this
/// level), the list comes out in panel order, and so do the children of
/// every directory in it.
pub fn build_entries(raw: Vec<RawEntry>, level: usize, limit: usize) -> (r: Vec<Entry>)
    ensures
        r@.len() == raw@.len(),
        sorted_entries(r@),
        shallows_of(r@).to_multiset() == raw_shallows(raw@, level as int).to_multiset(),
        forall|k: int| 0 <= k < r@.len() ==> entry_tree_sorted(#[trigger] r@[k]),
        entries_match_raws(r@, raw@, level as int, limit as int),
    decreases raw,
{
    let mut built: Vec<Entry> = Vec::new();
    let mut work = raw;
    let ghost raws = work@;
    while work.len() > 0
        invariant
            raws == raw@,
            built@.len() + work@.len() == raws.len(),
            forall|j: int| 0 <= j < work@.len() ==> work@[j] == raws[built@.len() + j],
            shallows_of(built@) =~= raw_shallows(raws.take(built@.len() as int), level as int),
            forall|k: int| 0 <= k < built@.len() ==> entry_tree_sorted(#[trigger] built@[k]),
            forall|k: int|
                0 <= k < built@.len() ==> entry_matches_raw(
                    #[trigger] built@[k],
                    raws[k],
                    level as int,
                    limit as int,
                ),
        decreases work@.len(),
    {
        let ghost k = built@.len() as int;
        let x = work.remove(0);
        proof {
            assert(x == raw@[k]);
            assert(decreases_to!(raw@ => raw@[k]));
            assert(decreases_to!(raw => raw@));
            assert(decreases_to!(raw => x));
        }
        let entry = build_one(x, level, limit);
        let ghost built0 = built@;
        built.push(entry);
        proof {
            assert(entry_matches_raw(entry, raws[k], level as int, limit as int));
            assert(spec_entry_shallow(entry) == raw_shallow(raws[k], level as int));
            assert(shallows_of(built@) =~= shallows_of(built0).push(spec_entry_shallow(entry)));
            assert(raw_shallows(raws.take(k + 1), level as int) =~= raw_shallows(
                raws.take(k),
                level as int,
            ).push(raw_shallow(raws[k], level as int)));
            assert(shallows_of(built@) =~= raw_shallows(raws.take(k + 1), level as int));
        }
    }
    proof {
        assert(raws.take(raws.len() as int) =~= raws);
        assert(raws == raw@);
    }
    let r = sort_entries(built);
    proof {
        assert forall|k: int| 0 <= k < r@.len() implies entry_tree_sorted(
            #[trigger] r@[k],
        ) by {
            broadcast use vstd::seq_lib::group_to_multiset_ensures;

            assert(r@.contains(r@[k]));
            assert(built@.to_multiset().count(r@[k]) > 0);
            let i = choose|i: int| 0 <= i < built@.len() && built@[i] == r@[k];
            assert(entry_tree_sorted(built@[i]));
        }
        assert forall|k: int| 0 <= k < r@.len() implies entry_from_some(
            #[trigger] r@[k],
            raw@,
            level as int,
            limit as int,
        ) by {
            broadcast use vstd::seq_lib::group_to_multiset_ensures;

            assert(r@.contains(r@[k]));
            assert(built@.to_multiset().count(r@[k]) > 0);
            let i = choose|i: int| 0 <= i < built@.len() && built@[i] == r@[k];
            assert(0 <= i < raw@.len() && entry_matches_raw(
                r@[k],
                raw@[i],
                level as int,
                limit as int,
            ));
        }
        assert(entries_match_raws(r@, raw@, level as int, limit as int));
    }
    r
}

/// The workspace: its root information and the sorted entry tree below it.
pub struct Workspace {
    pub info: WorkspaceInfo,
    pub entries: Vec<Entry>,
}

/// Builds the workspace view over the raw top-level listing of its root:
/// one tree entry per raw entry, in panel order, with each directory's
/// listed children one level down and a continuation marker standing in for
/// anything deeper.
pub fn read_workspace(info: WorkspaceInfo, listing: Vec<RawEntry>) -> (r: Workspace)
    ensures
        r.info == info,
        r.entries@.len() == listing@.len(),
        sorted_entries(r.entries@),
        shallows_of(r.entries@).to_multiset() == raw_shallows(listing@, 0).to_multiset(),
        forall|k: int| 0 <= k < r.entries@.len() ==> entry_tree_sorted(#[trigger] r.entries@[k]),
        entries_match_raws(r.entries@, listing@, 0, 1),
{
    let entries = build_entries(listing, 0, 1);
    Workspace { info, entries }
}

/// One line of the flattened file panel: an entry's name, path and depth.
pub struct EntryView {
    pub name: String,
    pub path: String,
    pub level: usize,
}

/// An entry view as plain values.
pub open spec fn view_model(v: EntryView) -> (Seq<char>, Seq<char>, int) {
    (v.name@, v.path@, v.level as int)
}

/// What one entry shows in the panel: its name, path and depth.
pub open spec fn spec_entry_view(e: Entry) -> (Seq<char>, Seq<char>, int) {
    (spec_entry_name(e), spec_entry_path(e), spec_entry_level(e))
}

/// The panel lines of a list of entries, one each, in order.
pub open spec fn child_views(es: Seq<Entry>) -> Seq<(Seq<char>, Seq<char>, int)> {
    es.map_values(|e: Entry| spec_entry_view(e))
}

/// The panel lines one entry contributes: itself, followed by its direct
/// children when it is a directory.
pub open spec fn entry_block_views(e: Entry) -> Seq<(Seq<char>, Seq<char>, int)> {
    match e {
        Entry::Dir { children, .. } => seq![spec_entry_view(e)] + child_views(children@),
        _ => seq![spec_entry_view(e)],
    }
}

/// The whole flattened panel: each entry's block, in order.
pub open spec fn flat_views(es: Seq<Entry>) -> Seq<(Seq<char>, Seq<char>, int)>
    decreases es.len(),
{
    if es.len() == 0 {
        Seq::empty()
    } else {
        entry_block_views(es.first()) + flat_views(es.drop_first())
    }
}

/// Appending one entry appends its block to the flattened panel.
proof fn lemma_flat_views_push(es: Seq<Entry>, x: Entry)
    ensures
        flat_views(es.push(x)) == flat_views(es) + entry_block_views(x),
    decreases es.len(),
{
    if es.len() == 0 {
        assert(es.push(x).drop_first() =~= es);
        assert(es.push(x).first() == x);
        assert(flat_views(es) =~= Seq::<(Seq<char>, Seq<char>, int)>::empty());
        assert(flat_views(es.push(x)) == entry_block_views(x) + flat_views(es.push(x).drop_first()));
        assert(flat_views(es.push(x)) =~= entry_block_views(x));
        assert(flat_views(es) + entry_block_views(x) =~= entry_block_views(x));
    } else {
        lemma_flat_views_push(es.drop_first(), x);
        assert(es.push(x).drop_first() =~= es.drop_first().push(x));
        assert(es.push(x).first() == es.first());
        assert(entry_block_views(es.first()) + (flat_views(es.drop_first())
            + entry_block_views(x)) =~= (entry_block_views(es.first()) + flat_views(
            es.drop_first(),
        )) + entry_block_views(x));
    }
}

impl Workspace {
    /// The flattened file panel: every top-level entry followed by its
    /// direct children, each as a name, path and depth.
    pub fn entries(&self) -> (r: Vec<EntryView>)
        ensures
            r@.map_values(|v: EntryView| view_model(v)) == flat_views(self.entries@),
    {
        let mut out: Vec<EntryView> = Vec::new();
        proof {
            assert(self.entries@.take(0) =~= Seq::<Entry>::empty());
            assert(out@.map_values(|v: EntryView| view_model(v)) =~= flat_views(
                self.entries@.take(0),
            ));
        }
        let mut i: usize = 0;
        while i < self.entries.len()
            invariant
                i <= self.entries@.len(),
                out@.map_values(|v: EntryView| view_model(v)) == flat_views(
                    self.entries@.take(i as int),
                ),
            decreases self.entries@.len() - i,
        {
            let ghost done = out@.map_values(|v: EntryView| view_model(v));
            let e = &self.entries[i];
            out.push(EntryView { name: e.name(), path: e.path().clone(), level: e.level() });
            proof {
                assert(out@.map_values(|v: EntryView| view_model(v)) =~= done.push(
                    spec_entry_view(*e),
                ));
            }
            if let Entry::Dir { children, .. } = e {
                let mut j: usize = 0;
                proof {
                    assert(children@.take(0) =~= Seq::<Entry>::empty());
                    assert(child_views(children@.take(0)) =~= Seq::<
                        (Seq<char>, Seq<char>, int),
                    >::empty());
                    assert(out@.map_values(|v: EntryView| view_model(v)) =~= done + seq![
                        spec_entry_view(*e),
                    ] + child_views(children@.take(0)));
                }
                while j < children.len()
                    invariant
                        j <= children@.len(),
                        out@.map_values(|v: EntryView| view_model(v)) == done + seq![
                            spec_entry_view(*e),
                        ] + child_views(children@.take(j as int)),
                    decreases children@.len() - j,
                {
                    let ghost before_map = out@.map_values(|v: EntryView| view_model(v));
                    let c = &children[j];
                    out.push(
                        EntryView { name: c.name(), path: c.path().clone(), level: c.level() },
                    );
                    proof {
                        assert(out@.map_values(|v: EntryView| view_model(v)) =~= before_map.push(
                            spec_entry_view(*c),
                        ));
                        assert(child_views(children@.take(j + 1)) =~= child_views(
                            children@.take(j as int),
                        ).push(spec_entry_view(*c)));
                        assert(out@.map_values(|v: EntryView| view_model(v)) =~= done + seq![
                            spec_entry_view(*e),
                        ] + child_views(children@.take(j + 1)));
                    }
                    j += 1;
                }
                proof {
                    assert(children@.take(children@.len() as int) =~= children@);
                    assert(out@.map_values(|v: EntryView| view_model(v)) =~= done
                        + entry_block_views(*e));
                }
            } else {
                proof {
                    assert(out@.map_values(|v: EntryView| view_model(v)) =~= done
                        + entry_block_views(*e));
                }
            }
            proof {
                lemma_flat_views_push(self.entries@.take(i as int), *e);
                assert(self.entries@.take(i + 1) =~= self.entries@.take(i as int).push(*e));
            }
            i += 1;
        }
        proof {
            assert(self.entries@.take(self.entries@.len() as int) =~= self.entries@);
        }
        out
    }
}

} // verus!
