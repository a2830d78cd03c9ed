//! The tree fingerprinter.
//!
//! `scan` walks a tree depth-first and returns the root's fingerprint or the
//! first failure on the path to a failing node. Every node that is resolved,
//! successfully or not, is recorded exactly once in the caller's accumulators;
//! a skipped node is excluded entirely and recorded nowhere.

use vstd::prelude::*;
use crate::digest::{salt_dir, salt_dir_vec, salt_symlink, salt_symlink_vec, sha256, sha256_of,
    append_bytes, clone_bytes};
use crate::model::{Entry, Error, Node};
use crate::order::{PairS, PairV, bytes_eq, lex_le, pair_le, pair_leq, pair_view, pairs_view,
    sort_pairs, sort_pairs_exec};
use crate::valid::{is_valid_utf8, is_valid_utf8_exec};

verus! {

/// The caller-supplied rule for excluding paths from the walk.
///
/// `spec_skip` is the mathematical meaning of the predicate; `skip` must
/// decide it. The predicate is pure: what it returns depends on the path
/// alone. It is consulted at exactly one point, on entry to each node's
/// visit; a directory treats a child's `Ignore` outcome as "leave this child
/// out" rather than testing the predicate a second time itself.
pub trait SkipPred {
    spec fn spec_skip(&self, path: Seq<u8>) -> bool;

    fn skip(&self, path: &Vec<u8>) -> (r: bool)
        ensures
            r == self.spec_skip(path@),
    ;
}

/// A predicate that skips nothing.
pub struct NoSkip;

impl SkipPred for NoSkip {
    open spec fn spec_skip(&self, path: Seq<u8>) -> bool {
        false
    }

    fn skip(&self, path: &Vec<u8>) -> (r: bool) {
        false
    }
}

/// A predicate that skips an explicit list of paths.
pub struct SkipExact {
    pub paths: Vec<Vec<u8>>,
}

impl SkipPred for SkipExact {
    open spec fn spec_skip(&self, path: Seq<u8>) -> bool {
        exists|i: int| 0 <= i < self.paths@.len() && self.paths@[i]@ == path
    }

    fn skip(&self, path: &Vec<u8>) -> (r: bool) {
        let mut i: usize = 0;
        while i < self.paths.len()
            invariant
                i <= self.paths.len(),
                forall|j: int| 0 <= j < i ==> self.paths@[j]@ != path@,
            decreases self.paths.len() - i,
        {
            if bytes_eq(&self.paths[i], path) {
                return true;
            }
            i = i + 1;
        }
        false
    }
}

/// The path of a directory's child: the directory's path, a slash, the name.
pub open spec fn child_path(dir: Seq<u8>, name: Seq<u8>) -> Seq<u8> {
    dir + seq![0x2Fu8] + name
}

/// Builds a child's path.
pub fn child_path_exec(dir: &Vec<u8>, name: &Vec<u8>) -> (r: Vec<u8>)
    ensures
        r@ == child_path(dir@, name@),
{
    let mut r = clone_bytes(dir);
    r.push(0x2Fu8);
    append_bytes(&mut r, name);
    proof {
        assert(r@ =~= child_path(dir@, name@));
    }
    r
}

/// A file's fingerprint: the digest of its bytes, with no salt.
pub open spec fn file_fp(content: Seq<u8>) -> Seq<u8> {
    sha256_of(content)
}

/// A symlink's outcome: the digest of the salt followed by the target text,
/// or an encoding failure when the target is not valid text.
pub open spec fn symlink_result(target: Seq<u8>) -> Result<Seq<u8>, Error> {
    if is_valid_utf8(target) {
        Ok(sha256_of(salt_symlink() + target))
    } else {
        Err(Error::EncodeError)
    }
}

/// The bytes a directory digest hashes after its salt: each pair's name then
/// fingerprint, in sequence order, from position `i` on.
pub open spec fn pairs_bytes_from(ps: Seq<PairS>, i: int) -> Seq<u8>
    decreases ps.len() - i,
{
    if i < 0 || i >= ps.len() {
        Seq::empty()
    } else {
        ps[i].0 + ps[i].1 + pairs_bytes_from(ps, i + 1)
    }
}

pub open spec fn pairs_bytes(ps: Seq<PairS>) -> Seq<u8> {
    pairs_bytes_from(ps, 0)
}

/// Whether some pair's name is not valid text.
pub open spec fn has_invalid_name(ps: Seq<PairS>) -> bool {
    exists|i: int| 0 <= i < ps.len() && !is_valid_utf8(ps[i].0)
}

/// Whether two neighbouring pairs carry the same name. On a canonically
/// ordered sequence this is exactly the presence of a duplicate name.
pub open spec fn has_adjacent_dup(ps: Seq<PairS>) -> bool {
    exists|i: int| 0 <= i && i + 1 < ps.len() && #[trigger] ps[i].0 == ps[i + 1].0
}

/// A directory's outcome, from the (name, fingerprint) pairs of its
/// non-skipped children: sort canonically, reject names that are not valid
/// text, reject duplicate names, then hash the salt followed by the sorted
/// pairs. An empty directory hashes the salt alone.
pub open spec fn dir_result(ps: Seq<PairS>) -> Result<Seq<u8>, Error> {
    let sp = sort_pairs(ps);
    if has_invalid_name(sp) {
        Err(Error::EncodeError)
    } else if has_adjacent_dup(sp) {
        Err(Error::DuplicateName)
    } else {
        Ok(sha256_of(salt_dir() + pairs_bytes(sp)))
    }
}

/// A node's outcome: a skipped node is excluded; a file hashes its bytes; a
/// symlink its salted target; a directory combines its children, aborting on
/// the first fatal child failure; anything else is unsupported; a node the
/// filesystem would not yield is a read failure.
pub open spec fn node_result<P: SkipPred>(pred: &P, path: Seq<u8>, node: Node) -> Result<
    Seq<u8>,
    Error,
>
    decreases node,
{
    if pred.spec_skip(path) {
        Err(Error::Ignore)
    } else {
        match node {
            Node::File(content) => Ok(file_fp(content@)),
            Node::Symlink(target) => symlink_result(target@),
            Node::Dir(children) => match children_pairs_from(pred, path, children@, 0) {
                Ok(ps) => dir_result(ps),
                Err(e) => Err(e),
            },
            Node::Other => Err(Error::UnsupportedKind),
            Node::Unreadable => Err(Error::IOError),
        }
    }
}

/// The (name, fingerprint) pairs of the children from position `i` on, in
/// listing order: a skipped child contributes nothing, a fatal child failure
/// is the whole directory's failure, and the children after it are never
/// reached.
pub open spec fn children_pairs_from<P: SkipPred>(
    pred: &P,
    dpath: Seq<u8>,
    s: Seq<Entry>,
    i: int,
) -> Result<Seq<PairS>, Error>
    decreases s, s.len() - i,
{
    if i < 0 || i >= s.len() {
        Ok(Seq::empty())
    } else {
        let cp = child_path(dpath, s[i].name@);
        match node_result(pred, cp, s[i].node) {
            Err(e) => if e == Error::Ignore {
                children_pairs_from(pred, dpath, s, i + 1)
            } else {
                Err(e)
            },
            Ok(fp) => match children_pairs_from(pred, dpath, s, i + 1) {
                Ok(rest) => Ok(seq![(s[i].name@, fp)] + rest),
                Err(e) => Err(e),
            },
        }
    }
}

pub open spec fn children_pairs<P: SkipPred>(pred: &P, dpath: Seq<u8>, s: Seq<Entry>) -> Result<
    Seq<PairS>,
    Error,
> {
    children_pairs_from(pred, dpath, s, 0)
}

/// What a directory scan returns before the parent's own reporting.
pub open spec fn dir_scan_result<P: SkipPred>(pred: &P, dpath: Seq<u8>, s: Seq<Entry>) -> Result<
    Seq<u8>,
    Error,
> {
    match children_pairs(pred, dpath, s) {
        Ok(ps) => dir_result(ps),
        Err(e) => Err(e),
    }
}

/// What a scan of `node` records: the (path, fingerprint) of every node that
/// was fingerprinted, in completion order, and the (path, error) of every
/// node that failed, innermost first. A skipped node records nothing.
pub open spec fn node_logs<P: SkipPred>(pred: &P, path: Seq<u8>, node: Node) -> (
    Seq<PairS>,
    Seq<(Seq<u8>, Error)>,
)
    decreases node,
{
    if pred.spec_skip(path) {
        (Seq::empty(), Seq::empty())
    } else {
        let res = node_result(pred, path, node);
        match node {
            Node::Dir(children) => {
                let cl = children_logs_from(pred, path, children@, 0);
                match res {
                    Ok(fp) => (cl.0.push((path, fp)), cl.1),
                    Err(e) => (cl.0, cl.1.push((path, e))),
                }
            },
            _ => {
                match res {
                    Ok(fp) => (seq![(path, fp)], Seq::empty()),
                    Err(e) => (Seq::empty(), seq![(path, e)]),
                }
            },
        }
    }
}

/// What scanning the children from position `i` on records: each resolved
/// child's records in order, stopping after the first fatal child failure.
pub open spec fn children_logs_from<P: SkipPred>(
    pred: &P,
    dpath: Seq<u8>,
    s: Seq<Entry>,
    i: int,
) -> (Seq<PairS>, Seq<(Seq<u8>, Error)>)
    decreases s, s.len() - i,
{
    if i < 0 || i >= s.len() {
        (Seq::empty(), Seq::empty())
    } else {
        let cp = child_path(dpath, s[i].name@);
        let hl = node_logs(pred, cp, s[i].node);
        match node_result(pred, cp, s[i].node) {
            Err(e) => if e == Error::Ignore {
                children_logs_from(pred, dpath, s, i + 1)
            } else {
                hl
            },
            Ok(fp) => {
                let rest = children_logs_from(pred, dpath, s, i + 1);
                (hl.0 + rest.0, hl.1 + rest.1)
            },
        }
    }
}

pub open spec fn children_logs<P: SkipPred>(pred: &P, dpath: Seq<u8>, s: Seq<Entry>) -> (
    Seq<PairS>,
    Seq<(Seq<u8>, Error)>,
) {
    children_logs_from(pred, dpath, s, 0)
}

/// A result of fingerprint bytes, seen at the specification level.
pub open spec fn res_view(r: Result<Vec<u8>, Error>) -> Result<Seq<u8>, Error> {
    match r {
        Ok(v) => Ok(v@),
        Err(e) => Err(e),
    }
}

/// The failure records, seen at the specification level.
pub open spec fn fails_view(s: Seq<(Vec<u8>, Error)>) -> Seq<(Seq<u8>, Error)> {
    s.map_values(|p: (Vec<u8>, Error)| (p.0@, p.1))
}

/// Hashes a file's bytes.
pub fn file_hash(content: &Vec<u8>) -> (r: Vec<u8>)
    ensures
        r@ == file_fp(content@),
        r@.len() == 32,
{
    sha256(content)
}

/// Hashes a symlink's target under the symlink salt; the target must be
/// valid text.
pub fn symlink_hash(target: &Vec<u8>) -> (r: Result<Vec<u8>, Error>)
    ensures
        res_view(r) == symlink_result(target@),
        r is Ok ==> r.unwrap()@.len() == 32,
{
    if is_valid_utf8_exec(target) {
        let mut buf = salt_symlink_vec();
        append_bytes(&mut buf, target);
        Ok(sha256(&buf))
    } else {
        Err(Error::EncodeError)
    }
}

/// Prefixing already-collected pairs onto the outcome of the remaining
/// children.
pub open spec fn prepend_pairs(ps: Seq<PairS>, r: Result<Seq<PairS>, Error>) -> Result<
    Seq<PairS>,
    Error,
> {
    match r {
        Ok(rest) => Ok(ps + rest),
        Err(e) => Err(e),
    }
}

/// Children never fail with `Ignore`: a skipped child is dropped, not
/// propagated.
pub proof fn lemma_children_err_not_ignore<P: SkipPred>(
    pred: &P,
    dpath: Seq<u8>,
    s: Seq<Entry>,
    i: int,
)
    ensures
        children_pairs_from(pred, dpath, s, i) != Err::<Seq<PairS>, Error>(Error::Ignore),
    decreases s, s.len() - i,
{
    if 0 <= i && i < s.len() {
        lemma_children_err_not_ignore(pred, dpath, s, i + 1);
    }
}

/// A node's outcome is `Ignore` exactly when the predicate skips its path.
pub proof fn lemma_node_ignore_iff<P: SkipPred>(pred: &P, path: Seq<u8>, node: Node)
    ensures
        (node_result(pred, path, node) == Err::<Seq<u8>, Error>(Error::Ignore)) <==> pred.spec_skip(
            path,
        ),
{
    if !pred.spec_skip(path) {
        match node {
            Node::Dir(children) => {
                lemma_children_err_not_ignore(pred, path, children@, 0);
            },
            _ => {},
        }
    }
}

/// Digests a directory from the (name, fingerprint) pairs of its non-skipped
/// children, in any order.
#[verifier::loop_isolation(false)]
pub fn dir_hash(pairs: Vec<PairV>) -> (r: Result<Vec<u8>, Error>)
    ensures
        res_view(r) == dir_result(pairs_view(pairs@)),
        r is Ok ==> r.unwrap()@.len() == 32,
{
    let ghost sp = sort_pairs(pairs_view(pairs@));
    let sorted = sort_pairs_exec(pairs);
    let n = sorted.len();
    let mut i: usize = 0;
    while i < n
        invariant
            n == sorted.len(),
            pairs_view(sorted@) == sp,
            i <= n,
            forall|j: int| 0 <= j < i ==> is_valid_utf8(#[trigger] sp[j].0),
        decreases n - i,
    {
        let ok = is_valid_utf8_exec(&sorted[i].0);
        proof {
            assert(pair_view(sorted@[i as int]) == sp[i as int]);
        }
        if !ok {
            proof {
                assert(!is_valid_utf8(sp[i as int].0));
                assert(has_invalid_name(sp));
            }
            return Err(Error::EncodeError);
        }
        i = i + 1;
    }
    proof {
        assert(!has_invalid_name(sp));
    }
    if n > 0 {
        let mut k: usize = 0;
        while k < n - 1
            invariant
                n == sorted.len(),
                n >= 1,
                pairs_view(sorted@) == sp,
                k <= n - 1,
                forall|j: int| 0 <= j < k ==> #[trigger] sp[j].0 != sp[j + 1].0,
            decreases n - k,
        {
            let same = bytes_eq(&sorted[k].0, &sorted[k + 1].0);
            proof {
                assert(pair_view(sorted@[k as int]) == sp[k as int]);
                assert(pair_view(sorted@[k + 1 as int]) == sp[k + 1 as int]);
            }
            if same {
                proof {
                    assert(sp[k as int].0 == sp[k + 1 as int].0);
                    assert(has_adjacent_dup(sp));
                }
                return Err(Error::DuplicateName);
            }
            k = k + 1;
        }
        proof {
            assert(!has_adjacent_dup(sp));
        }
    }
    proof {
        assert(!has_adjacent_dup(sp));
    }
    let mut buf = salt_dir_vec();
    let mut m: usize = 0;
    while m < n
        invariant
            n == sorted.len(),
            pairs_view(sorted@) == sp,
            m <= n,
            buf@ + pairs_bytes_from(sp, m as int) == salt_dir() + pairs_bytes_from(sp, 0),
        decreases n - m,
    {
        let ghost before = buf@;
        append_bytes(&mut buf, &sorted[m].0);
        append_bytes(&mut buf, &sorted[m].1);
        proof {
            assert(pair_view(sorted@[m as int]) == sp[m as int]);
            assert(sorted@[m as int].0@ == sp[m as int].0);
            assert(sorted@[m as int].1@ == sp[m as int].1);
            assert(buf@ =~= before + sp[m as int].0 + sp[m as int].1);
            assert(buf@ + pairs_bytes_from(sp, m + 1) =~= before + (sp[m as int].0 + sp[
                m as int
            ].1 + pairs_bytes_from(sp, m + 1)));
            assert(buf@ + pairs_bytes_from(sp, m + 1) =~= before + pairs_bytes_from(
                sp,
                m as int,
            ));
        }
        m = m + 1;
    }
    proof {
        assert(pairs_bytes_from(sp, n as int) =~= Seq::<u8>::empty());
        assert(buf@ + pairs_bytes_from(sp, n as int) =~= buf@);
        assert(buf@ == salt_dir() + pairs_bytes(sp));
    }
    Ok(sha256(&buf))
}

/// Scans a directory's children in listing order, aborting on the first
/// fatal child failure, then digests the collected pairs.
pub fn scan_dir<P: SkipPred>(
    dpath: &Vec<u8>,
    children: &Vec<Entry>,
    pred: &P,
    successes: &mut Vec<PairV>,
    failures: &mut Vec<(Vec<u8>, Error)>,
) -> (r: Result<Vec<u8>, Error>)
    ensures
        res_view(r) == dir_scan_result(pred, dpath@, children@),
        pairs_view(final(successes)@) == pairs_view(old(successes)@) + children_logs(
            pred,
            dpath@,
            children@,
        ).0,
        fails_view(final(failures)@) == fails_view(old(failures)@) + children_logs(
            pred,
            dpath@,
            children@,
        ).1,
    decreases children,
{
    let ghost s = children@;
    let ghost dp = dpath@;
    let mut pairs: Vec<PairV> = Vec::new();
    proof {
        assert(pairs_view(pairs@) =~= Seq::<PairS>::empty());
        match children_pairs_from(pred, dp, s, 0) {
            Ok(rest) => {
                assert(Seq::<PairS>::empty() + rest =~= rest);
            },
            Err(_) => {},
        }
    }
    let mut i: usize = 0;
    while i < children.len()
        invariant
            children@ == s,
            dpath@ == dp,
            i <= s.len(),
            children_pairs_from(pred, dp, s, 0) == prepend_pairs(
                pairs_view(pairs@),
                children_pairs_from(pred, dp, s, i as int),
            ),
            pairs_view(successes@) + children_logs_from(pred, dp, s, i as int).0 == pairs_view(
                old(successes)@,
            ) + children_logs_from(pred, dp, s, 0).0,
            fails_view(failures@) + children_logs_from(pred, dp, s, i as int).1 == fails_view(
                old(failures)@,
            ) + children_logs_from(pred, dp, s, 0).1,
        decreases s.len() - i,
    {
        let entry = &children[i];
        let cp = child_path_exec(dpath, &entry.name);
        let ghost cps = child_path(dp, s[i as int].name@);
        let ghost hr = node_result(pred, cps, s[i as int].node);
        let ghost hl = node_logs(pred, cps, s[i as int].node);
        let ghost succ_before = pairs_view(successes@);
        let ghost fail_before = fails_view(failures@);
        let res = scan_impl(&cp, &entry.node, pred, successes, failures);
        match res {
            Ok(fp) => {
                let ghost pv_before = pairs_view(pairs@);
                pairs.push((clone_bytes(&entry.name), fp));
                proof {
                    assert(pairs_view(pairs@) =~= pv_before.push((s[i as int].name@, hr.unwrap())));
                    match children_pairs_from(pred, dp, s, i + 1) {
                        Ok(rest) => {
                            assert(children_pairs_from(pred, dp, s, i as int) == Ok::<
                                Seq<PairS>,
                                Error,
                            >(seq![(s[i as int].name@, hr.unwrap())] + rest));
                            assert(pv_before.push((s[i as int].name@, hr.unwrap())) + rest =~=
                                pv_before + (seq![(s[i as int].name@, hr.unwrap())] + rest));
                        },
                        Err(_) => {},
                    }
                    assert((succ_before + hl.0) + children_logs_from(pred, dp, s, i + 1).0 =~=
                        succ_before + (hl.0 + children_logs_from(pred, dp, s, i + 1).0));
                    assert((fail_before + hl.1) + children_logs_from(pred, dp, s, i + 1).1 =~=
                        fail_before + (hl.1 + children_logs_from(pred, dp, s, i + 1).1));
                }
            },
            Err(e) => {
                match e {
                    Error::Ignore => {
                        proof {
                            lemma_node_ignore_iff(pred, cps, s[i as int].node);
                            assert(pred.spec_skip(cps));
                            assert(hl.0 =~= Seq::<PairS>::empty());
                            assert(hl.1 =~= Seq::<(Seq<u8>, Error)>::empty());
                            assert(pairs_view(successes@) =~= succ_before);
                            assert(fails_view(failures@) =~= fail_before);
                        }
                    },
                    _ => {
                        proof {
                            assert(children_pairs_from(pred, dp, s, i as int) == Err::<
                                Seq<PairS>,
                                Error,
                            >(e));
                            assert(children_logs_from(pred, dp, s, i as int) == hl);
                        }
                        return Err(e);
                    },
                }
            },
        }
        i = i + 1;
    }
    proof {
        assert(children_pairs_from(pred, dp, s, s.len() as int) == Ok::<Seq<PairS>, Error>(
            Seq::empty(),
        ));
        assert(pairs_view(pairs@) + Seq::<PairS>::empty() =~= pairs_view(pairs@));
        assert(children_pairs(pred, dp, s) == Ok::<Seq<PairS>, Error>(pairs_view(pairs@)));
        assert(children_logs_from(pred, dp, s, s.len() as int).0 =~= Seq::<PairS>::empty());
        assert(children_logs_from(pred, dp, s, s.len() as int).1 =~= Seq::<(
            Seq<u8>,
            Error,
        )>::empty());
        assert(pairs_view(successes@) + children_logs_from(pred, dp, s, s.len() as int).0 =~=
            pairs_view(successes@));
        assert(fails_view(failures@) + children_logs_from(pred, dp, s, s.len() as int).1 =~=
            fails_view(failures@));
    }
    dir_hash(pairs)
}

/// Fingerprints one node: applies the skip rule, dispatches on the node's
/// kind, and records the outcome exactly once.
pub fn scan_impl<P: SkipPred>(
    path: &Vec<u8>,
    node: &Node,
    pred: &P,
    successes: &mut Vec<PairV>,
    failures: &mut Vec<(Vec<u8>, Error)>,
) -> (r: Result<Vec<u8>, Error>)
    ensures
        res_view(r) == node_result(pred, path@, *node),
        pairs_view(final(successes)@) == pairs_view(old(successes)@) + node_logs(
            pred,
            path@,
            *node,
        ).0,
        fails_view(final(failures)@) == fails_view(old(failures)@) + node_logs(
            pred,
            path@,
            *node,
        ).1,
    decreases node,
{
    if pred.skip(path) {
        proof {
            assert(pairs_view(successes@) + Seq::<PairS>::empty() =~= pairs_view(successes@));
            assert(fails_view(failures@) + Seq::<(Seq<u8>, Error)>::empty() =~= fails_view(
                failures@,
            ));
        }
        return Err(Error::Ignore);
    }
    let ghost succ_before = pairs_view(successes@);
    let ghost fail_before = fails_view(failures@);
    let result: Result<Vec<u8>, Error> = match node {
        Node::File(content) => Ok(file_hash(content)),
        Node::Symlink(target) => symlink_hash(target),
        Node::Dir(children) => scan_dir(path, children, pred, successes, failures),
        Node::Other => Err(Error::UnsupportedKind),
        Node::Unreadable => Err(Error::IOError),
    };
    let ghost succ_mid = pairs_view(successes@);
    let ghost fail_mid = fails_view(failures@);
    match result {
        Ok(fp) => {
            let out = clone_bytes(&fp);
            successes.push((clone_bytes(path), fp));
            proof {
                assert(pairs_view(successes@) =~= succ_mid.push((path@, out@)));
                assert(succ_mid.push((path@, out@)) =~= succ_mid + seq![(path@, out@)]);
                match node {
                    Node::Dir(children) => {
                        let cl = children_logs(pred, path@, children@);
                        assert(succ_before + cl.0 + seq![(path@, out@)] =~= succ_before + (
                        cl.0.push((path@, out@))));
                    },
                    _ => {},
                }
                assert(fails_view(failures@) + Seq::<(Seq<u8>, Error)>::empty() =~= fails_view(
                    failures@,
                ));
            }
            Ok(out)
        },
        Err(e) => {
            failures.push((clone_bytes(path), e));
            proof {
                assert(fails_view(failures@) =~= fail_mid.push((path@, e)));
                assert(fail_mid.push((path@, e)) =~= fail_mid + seq![(path@, e)]);
                match node {
                    Node::Dir(children) => {
                        let cl = children_logs(pred, path@, children@);
                        assert(fail_before + cl.1 + seq![(path@, e)] =~= fail_before + (cl.1.push(
                            (path@, e),
                        )));
                    },
                    _ => {},
                }
                assert(pairs_view(successes@) + Seq::<PairS>::empty() =~= pairs_view(successes@));
            }
            Err(e)
        },
    }
}

/// Order independence: a directory's outcome is a function of the collection
/// of (name, fingerprint) pairs alone — two listings of the same pairs, in
/// any orders, digest identically and fail identically.
pub proof fn lemma_dir_result_order_independent(p1: Seq<PairS>, p2: Seq<PairS>)
    requires
        p1.to_multiset() == p2.to_multiset(),
    ensures
        dir_result(p1) == dir_result(p2),
{
    crate::order::lemma_sort_pairs_permutation(p1, p2);
}

/// A mapping of a sequence preserves permutation: sequences with the same
/// elements map to sequences with the same elements.
proof fn lemma_map_values_multiset<A, B>(s1: Seq<A>, s2: Seq<A>, f: spec_fn(A) -> B)
    requires
        s1.to_multiset() == s2.to_multiset(),
    ensures
        s1.map_values(f).to_multiset() == s2.map_values(f).to_multiset(),
    decreases s1.len(),
{
    broadcast use vstd::seq_lib::group_to_multiset_ensures;
    broadcast use vstd::multiset::group_multiset_axioms;

    if s1.len() == 0 {
        assert(s1.to_multiset().len() == s1.len());
        assert(s2.to_multiset().len() == s2.len());
        assert(s2.len() == 0);
        assert(s1.map_values(f) =~= s2.map_values(f));
    } else {
        let x = s1[0];
        assert(s1.contains(x));
        assert(s2.to_multiset().count(x) > 0);
        assert(s2.contains(x));
        let j = choose|j: int| 0 <= j < s2.len() && s2[j] == x;
        let s1r = s1.remove(0);
        let s2r = s2.remove(j);
        assert(s1r.to_multiset() == s1.to_multiset().remove(x));
        assert(s2r.to_multiset() == s2.to_multiset().remove(x));
        lemma_map_values_multiset(s1r, s2r, f);
        let m1 = s1.map_values(f);
        let m2 = s2.map_values(f);
        assert(m1.remove(0) =~= s1r.map_values(f));
        assert(m2.remove(j) =~= s2r.map_values(f));
        assert(m1[0] == f(x));
        assert(m2[j] == f(x));
        assert(m1.remove(0).to_multiset() == m1.to_multiset().remove(f(x)));
        assert(m2.remove(j).to_multiset() == m2.to_multiset().remove(f(x)));
        assert(m1.contains(m1[0]));
        assert(m1.to_multiset().count(f(x)) > 0);
        assert(m2.contains(m2[j]));
        assert(m2.to_multiset().count(f(x)) > 0);
        assert(m1.to_multiset() =~= m2.to_multiset()) by {
            assert forall|z: B| m1.to_multiset().count(z) == m2.to_multiset().count(z) by {
                assert(m1.to_multiset().remove(f(x)).count(z) == m2.to_multiset().remove(
                    f(x),
                ).count(z));
            }
        }
    }
}

/// Whether the child at a position resolves, fatally fails, or is skipped is
/// a property of the entry itself; `children_ok_iff` then says a directory's
/// children resolve together exactly when each child does.
pub open spec fn entry_fatal<P: SkipPred>(pred: &P, dpath: Seq<u8>, e: Entry) -> bool {
    match node_result(pred, child_path(dpath, e.name@), e.node) {
        Ok(_) => false,
        Err(er) => er != Error::Ignore,
    }
}

proof fn lemma_children_ok_iff<P: SkipPred>(pred: &P, dpath: Seq<u8>, s: Seq<Entry>, i: int)
    requires
        0 <= i <= s.len(),
    ensures
        (children_pairs_from(pred, dpath, s, i) is Ok) <==> (forall|k: int|
            i <= k < s.len() ==> !entry_fatal(pred, dpath, #[trigger] s[k])),
    decreases s, s.len() - i,
{
    if i < s.len() {
        lemma_children_ok_iff(pred, dpath, s, i + 1);
        if entry_fatal(pred, dpath, s[i]) {
            assert(!(children_pairs_from(pred, dpath, s, i) is Ok));
        } else {
            assert((children_pairs_from(pred, dpath, s, i) is Ok) <==> (
            children_pairs_from(pred, dpath, s, i + 1) is Ok));
            if children_pairs_from(pred, dpath, s, i) is Ok {
                assert forall|k: int|
                    i <= k < s.len() implies !entry_fatal(pred, dpath, #[trigger] s[k]) by {
                    if k > i {
                        assert(!entry_fatal(pred, dpath, s[k]));
                    }
                }
            }
        }
    }
}

/// When no child is skipped and every child resolves, the collected pairs
/// are exactly each entry's (name, fingerprint), in listing order.
proof fn lemma_children_pairs_map<P: SkipPred>(
    pred: &P,
    dpath: Seq<u8>,
    s: Seq<Entry>,
    i: int,
    f: spec_fn(Entry) -> PairS,
)
    requires
        forall|q: Seq<u8>| !pred.spec_skip(q),
        forall|k: int| 0 <= k < s.len() ==> !entry_fatal(pred, dpath, #[trigger] s[k]),
        forall|e: Entry| #[trigger] f(e) == (e.name@, node_result(
            pred,
            child_path(dpath, e.name@),
            e.node,
        ).unwrap()),
        0 <= i <= s.len(),
    ensures
        children_pairs_from(pred, dpath, s, i) == Ok::<Seq<PairS>, Error>(
            s.subrange(i, s.len() as int).map_values(f),
        ),
    decreases s.len() - i,
{
    if i == s.len() {
        assert(s.subrange(i, s.len() as int).map_values(f) =~= Seq::<PairS>::empty());
    } else {
        lemma_node_ignore_iff(pred, child_path(dpath, s[i].name@), s[i].node);
        assert(!entry_fatal(pred, dpath, s[i]));
        assert(node_result(pred, child_path(dpath, s[i].name@), s[i].node) is Ok);
        lemma_children_pairs_map(pred, dpath, s, i + 1, f);
        assert(s.subrange(i, s.len() as int).map_values(f) =~= seq![f(s[i])] + s.subrange(
            i + 1,
            s.len() as int,
        ).map_values(f));
    }
}

/// Order independence at the directory level: two listings of the same
/// children, in any orders, fingerprint identically, provided nothing is
/// skipped and the children resolve.
pub proof fn lemma_listing_order_independent<P: SkipPred>(
    pred: &P,
    path: Seq<u8>,
    c1: Vec<Entry>,
    c2: Vec<Entry>,
)
    requires
        forall|q: Seq<u8>| !pred.spec_skip(q),
        c1@.to_multiset() == c2@.to_multiset(),
        children_pairs(pred, path, c1@) is Ok,
    ensures
        node_result(pred, path, Node::Dir(c1)) == node_result(pred, path, Node::Dir(c2)),
{
    broadcast use vstd::seq_lib::group_to_multiset_ensures;

    let s1 = c1@;
    let s2 = c2@;
    lemma_children_ok_iff(pred, path, s1, 0);
    assert forall|k: int| 0 <= k < s2.len() implies !entry_fatal(pred, path, #[trigger] s2[k]) by {
        assert(s2.to_multiset().count(s2[k]) > 0);
        assert(s1.contains(s2[k]));
        let m = choose|m: int| 0 <= m < s1.len() && s1[m] == s2[k];
        assert(!entry_fatal(pred, path, s1[m]));
    }
    lemma_children_ok_iff(pred, path, s2, 0);
    let f = |e: Entry|
        (
            e.name@,
            node_result(pred, child_path(path, e.name@), e.node).unwrap(),
        );
    lemma_children_pairs_map(pred, path, s1, 0, f);
    lemma_children_pairs_map(pred, path, s2, 0, f);
    assert(s1.subrange(0, s1.len() as int) =~= s1);
    assert(s2.subrange(0, s2.len() as int) =~= s2);
    lemma_map_values_multiset(s1, s2, f);
    lemma_dir_result_order_independent(s1.map_values(f), s2.map_values(f));
}

proof fn lemma_two_indices_count<A>(s: Seq<A>, a: int, b: int)
    requires
        0 <= a < b < s.len(),
        s[a] == s[b],
    ensures
        s.to_multiset().count(s[a]) >= 2,
{
    broadcast use vstd::seq_lib::group_to_multiset_ensures;
    broadcast use vstd::multiset::group_multiset_axioms;

    let x = s[a];
    let r = s.remove(a);
    assert(r.to_multiset() == s.to_multiset().remove(x));
    assert(r[b - 1] == s[b]);
    assert(r.contains(x));
    assert(r.to_multiset().count(x) > 0);
}

proof fn lemma_count_two_indices<A>(s: Seq<A>, x: A) -> (r: (int, int))
    requires
        s.to_multiset().count(x) >= 2,
    ensures
        0 <= r.0 < r.1 < s.len(),
        s[r.0] == x,
        s[r.1] == x,
{
    broadcast use vstd::seq_lib::group_to_multiset_ensures;
    broadcast use vstd::multiset::group_multiset_axioms;

    assert(s.contains(x));
    let a = choose|a: int| 0 <= a < s.len() && s[a] == x;
    let rem = s.remove(a);
    assert(rem.to_multiset() == s.to_multiset().remove(x));
    assert(rem.to_multiset().count(x) > 0);
    assert(rem.contains(x));
    let j = choose|j: int| 0 <= j < rem.len() && rem[j] == x;
    if j < a {
        assert(rem[j] == s[j]);
        (j, a)
    } else {
        assert(rem[j] == s[j + 1]);
        (a, j + 1)
    }
}

proof fn lemma_pair_le_names(p: PairS, q: PairS)
    requires
        pair_le(p, q),
    ensures
        lex_le(p.0, q.0),
{
    if p.0 == q.0 {
        crate::order::lemma_lex_le_refl(p.0);
    }
}

/// In a canonically ordered sequence, any two pairs with one name stand next
/// to each other's equals: a duplicate name shows up between neighbours.
proof fn lemma_sorted_dup_adjacent(sp: Seq<PairS>, a: int, b: int)
    requires
        vstd::relations::sorted_by(sp, pair_leq()),
        0 <= a < b < sp.len(),
        sp[a].0 == sp[b].0,
    ensures
        has_adjacent_dup(sp),
{
    let r = pair_leq();
    assert(r(sp[a], sp[a + 1]));
    if a + 1 < b {
        assert(r(sp[a + 1], sp[b]));
        lemma_pair_le_names(sp[a], sp[a + 1]);
        lemma_pair_le_names(sp[a + 1], sp[b]);
        crate::order::lemma_lex_le_antisym(sp[a].0, sp[a + 1].0);
    }
    assert(sp[a].0 == sp[a + 1].0);
}

/// The duplicate-name rejection is exactly the presence of two pairs with one
/// name in the listing, in whatever order the listing came.
pub proof fn lemma_duplicate_names_iff(ps: Seq<PairS>)
    ensures
        has_adjacent_dup(sort_pairs(ps)) <==> (exists|i: int, j: int|
            #![trigger ps[i].0, ps[j].0]
            0 <= i < j < ps.len() && ps[i].0 == ps[j].0),
{
    broadcast use vstd::seq_lib::group_to_multiset_ensures;
    broadcast use vstd::multiset::group_multiset_axioms;

    let sp = sort_pairs(ps);
    crate::order::lemma_sort_pairs_ensures(ps);
    if has_adjacent_dup(sp) {
        let k = choose|k: int| 0 <= k && k + 1 < sp.len() && #[trigger] sp[k].0 == sp[k + 1].0;
        let x = sp[k];
        let y = sp[k + 1];
        if x == y {
            lemma_two_indices_count(sp, k, k + 1);
            let w = lemma_count_two_indices(ps, x);
            assert(ps[w.0].0 == ps[w.1].0);
        } else {
            assert(sp.contains(x));
            assert(sp.contains(y));
            assert(ps.to_multiset().count(x) > 0);
            assert(ps.to_multiset().count(y) > 0);
            assert(ps.contains(x));
            assert(ps.contains(y));
            let i = choose|i: int| 0 <= i < ps.len() && ps[i] == x;
            let j = choose|j: int| 0 <= j < ps.len() && ps[j] == y;
            assert(i != j);
            if i < j {
                assert(ps[i].0 == ps[j].0);
            } else {
                assert(ps[j].0 == ps[i].0);
            }
        }
    }
    if exists|i: int, j: int|
        #![trigger ps[i].0, ps[j].0]
        0 <= i < j < ps.len() && ps[i].0 == ps[j].0 {
        let (i, j) = choose|i: int, j: int|
            #![trigger ps[i].0, ps[j].0]
            0 <= i < j < ps.len() && ps[i].0 == ps[j].0;
        let x = ps[i];
        let y = ps[j];
        if x == y {
            lemma_two_indices_count(ps, i, j);
            let w = lemma_count_two_indices(sp, x);
            lemma_sorted_dup_adjacent(sp, w.0, w.1);
        } else {
            assert(ps.contains(x));
            assert(ps.contains(y));
            assert(sp.to_multiset().count(x) > 0);
            assert(sp.to_multiset().count(y) > 0);
            assert(sp.contains(x));
            assert(sp.contains(y));
            let a = choose|a: int| 0 <= a < sp.len() && sp[a] == x;
            let b = choose|b: int| 0 <= b < sp.len() && sp[b] == y;
            assert(a != b);
            if a < b {
                lemma_sorted_dup_adjacent(sp, a, b);
            } else {
                lemma_sorted_dup_adjacent(sp, b, a);
            }
        }
    }
}

/// Determinism: two runs whose skip predicates agree on every path resolve
/// every node to the same outcome and produce the same records.
pub proof fn lemma_scan_deterministic<P1: SkipPred, P2: SkipPred>(
    p1: &P1,
    p2: &P2,
    path: Seq<u8>,
    node: Node,
)
    requires
        forall|q: Seq<u8>| p1.spec_skip(q) == p2.spec_skip(q),
    ensures
        node_result(p1, path, node) == node_result(p2, path, node),
        node_logs(p1, path, node) == node_logs(p2, path, node),
    decreases node,
{
    if !p1.spec_skip(path) {
        match node {
            Node::Dir(children) => {
                lemma_children_deterministic(p1, p2, path, children@, 0);
            },
            _ => {},
        }
    }
}

proof fn lemma_children_deterministic<P1: SkipPred, P2: SkipPred>(
    p1: &P1,
    p2: &P2,
    dpath: Seq<u8>,
    s: Seq<Entry>,
    i: int,
)
    requires
        forall|q: Seq<u8>| p1.spec_skip(q) == p2.spec_skip(q),
    ensures
        children_pairs_from(p1, dpath, s, i) == children_pairs_from(p2, dpath, s, i),
        children_logs_from(p1, dpath, s, i) == children_logs_from(p2, dpath, s, i),
    decreases s, s.len() - i,
{
    if 0 <= i && i < s.len() {
        lemma_scan_deterministic(p1, p2, child_path(dpath, s[i].name@), s[i].node);
        lemma_children_deterministic(p1, p2, dpath, s, i + 1);
    }
}

/// A node's fingerprint does not depend on where the node stands: under a
/// predicate that skips nothing, scanning the same node at two paths gives
/// the same outcome. In particular, renaming a child changes the parent's
/// digest input but never the child's own fingerprint.
pub proof fn lemma_fp_ignores_path<P: SkipPred>(
    pred: &P,
    path1: Seq<u8>,
    path2: Seq<u8>,
    node: Node,
)
    requires
        forall|q: Seq<u8>| !pred.spec_skip(q),
    ensures
        node_result(pred, path1, node) == node_result(pred, path2, node),
    decreases node,
{
    match node {
        Node::Dir(children) => {
            lemma_children_ignore_path(pred, path1, path2, children@, 0);
        },
        _ => {},
    }
}

proof fn lemma_children_ignore_path<P: SkipPred>(
    pred: &P,
    dpath1: Seq<u8>,
    dpath2: Seq<u8>,
    s: Seq<Entry>,
    i: int,
)
    requires
        forall|q: Seq<u8>| !pred.spec_skip(q),
    ensures
        children_pairs_from(pred, dpath1, s, i) == children_pairs_from(pred, dpath2, s, i),
    decreases s, s.len() - i,
{
    if 0 <= i && i < s.len() {
        lemma_fp_ignores_path(
            pred,
            child_path(dpath1, s[i].name@),
            child_path(dpath2, s[i].name@),
            s[i].node,
        );
        lemma_children_ignore_path(pred, dpath1, dpath2, s, i + 1);
    }
}

proof fn lemma_children_shift<P: SkipPred>(
    pred: &P,
    dpath: Seq<u8>,
    s: Seq<Entry>,
    s2: Seq<Entry>,
    k: int,
    j: int,
)
    requires
        0 <= k < s.len(),
        s2 == s.remove(k),
        k <= j <= s2.len(),
    ensures
        children_pairs_from(pred, dpath, s, j + 1) == children_pairs_from(pred, dpath, s2, j),
        children_logs_from(pred, dpath, s, j + 1) == children_logs_from(pred, dpath, s2, j),
    decreases s.len() - j,
{
    if j < s2.len() {
        assert(s2[j] == s[j + 1]);
        lemma_children_shift(pred, dpath, s, s2, k, j + 1);
    }
}

proof fn lemma_children_skip_removed<P: SkipPred>(
    pred: &P,
    dpath: Seq<u8>,
    s: Seq<Entry>,
    s2: Seq<Entry>,
    k: int,
    i: int,
)
    requires
        0 <= k < s.len(),
        s2 == s.remove(k),
        pred.spec_skip(child_path(dpath, s[k].name@)),
        0 <= i <= k,
    ensures
        children_pairs_from(pred, dpath, s, i) == children_pairs_from(pred, dpath, s2, i),
        children_logs_from(pred, dpath, s, i) == children_logs_from(pred, dpath, s2, i),
    decreases k - i,
{
    if i == k {
        lemma_node_ignore_iff(pred, child_path(dpath, s[k].name@), s[k].node);
        lemma_children_shift(pred, dpath, s, s2, k, k);
    } else {
        assert(s2[i] == s[i]);
        lemma_children_skip_removed(pred, dpath, s, s2, k, i + 1);
    }
}

/// Skip correctness: a directory with a skipped child resolves exactly as the
/// directory with that child absent — the same fingerprint or failure, and
/// the same records. The skipped subtree is absent from the digest input.
pub proof fn lemma_skip_child_removed<P: SkipPred>(
    pred: &P,
    path: Seq<u8>,
    c1: Vec<Entry>,
    c2: Vec<Entry>,
    k: int,
)
    requires
        0 <= k < c1@.len(),
        c2@ == c1@.remove(k),
        pred.spec_skip(child_path(path, c1@[k].name@)),
    ensures
        node_result(pred, path, Node::Dir(c1)) == node_result(pred, path, Node::Dir(c2)),
        node_logs(pred, path, Node::Dir(c1)) == node_logs(pred, path, Node::Dir(c2)),
{
    lemma_children_skip_removed(pred, path, c1@, c2@, k, 0);
}

/// Fingerprints the tree rooted at `path`, recording every resolved node's
/// fingerprint or failure in the caller's accumulators.
pub fn scan<P: SkipPred>(
    path: &Vec<u8>,
    node: &Node,
    pred: &P,
    successes: &mut Vec<PairV>,
    failures: &mut Vec<(Vec<u8>, Error)>,
) -> (r: Result<Vec<u8>, Error>)
    ensures
        res_view(r) == node_result(pred, path@, *node),
        pairs_view(final(successes)@) == pairs_view(old(successes)@) + node_logs(
            pred,
            path@,
            *node,
        ).0,
        fails_view(final(failures)@) == fails_view(old(failures)@) + node_logs(
            pred,
            path@,
            *node,
        ).1,
{
    scan_impl(path, node, pred, successes, failures)
}

} // verus!

