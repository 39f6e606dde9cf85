use vstd::prelude::*;
use vstd::string::StrSliceExecFns;

verus! {

/// A leaf payload as the tree walker hands it over: raw bytes tagged with
/// the logical directory they belong to and their own name.
#[derive(Debug, Clone)]
pub struct Entry {
    pub buffer: Vec<u8>,
    pub dir: String,
    pub name: String,
}

/// A sub-forest as the tree walker hands it over, to be serialized as a
/// complete container of its own and stored like a single entry's payload.
#[derive(Debug)]
pub struct NestedEntry {
    pub dir: String,
    pub name: String,
    pub entries: Vec<EntryType>,
}

/// The unit the tree walker produces: a leaf entry or a nested sub-forest.
#[derive(Debug)]
pub enum EntryType {
    Entry(Entry),
    NestedEntry(NestedEntry),
}

/// What a tree walk does at a node it visits.
#[derive(Debug)]
pub enum Action {
    CheckIfFile,
    TraverseDirectory,
}

/// A named group of entry nodes: the unit the encoder serializes.
#[derive(Debug)]
pub struct Directory {
    pub name: String,
    pub entries: Vec<EntryNode>,
}

/// One slot of a directory: a leaf payload, or a nested sub-forest that is
/// serialized as a complete container of its own.
#[derive(Debug)]
pub enum EntryNode {
    Entry { name: String, bytes: Vec<u8> },
    Nested { name: String, dirs: Vec<Directory> },
}

impl EntryNode {
    /// The node's own name.
    pub open spec fn node_name(self) -> Seq<char> {
        match self {
            EntryNode::Entry { name, bytes: _ } => name@,
            EntryNode::Nested { name, dirs: _ } => name@,
        }
    }
}

/// The directory tag a flat walker node carries.
pub open spec fn node_dir(et: EntryType) -> Seq<char> {
    match et {
        EntryType::Entry(e) => e.dir@,
        EntryType::NestedEntry(n) => n.dir@,
    }
}

/// The directory tags of `ns`, each kept at its first appearance.
pub open spec fn first_seen_dirs(ns: Seq<EntryType>) -> Seq<Seq<char>>
    decreases ns.len(),
{
    if ns.len() == 0 {
        Seq::empty()
    } else {
        let pre = first_seen_dirs(ns.drop_last());
        if pre.contains(node_dir(ns.last())) {
            pre
        } else {
            pre.push(node_dir(ns.last()))
        }
    }
}

/// The nodes of `ns` that carry directory tag `d`, in their own order.
pub open spec fn dir_nodes(ns: Seq<EntryType>, d: Seq<char>) -> Seq<EntryType>
    decreases ns.len(),
{
    if ns.len() == 0 {
        Seq::empty()
    } else {
        let pre = dir_nodes(ns.drop_last(), d);
        if node_dir(ns.last()) == d {
            pre.push(ns.last())
        } else {
            pre
        }
    }
}

/// A grouped node stands for a flat walker node: the same name, and a
/// leaf's bytes or a nested node's recursively grouped sub-forest.
pub open spec fn node_matches(en: EntryNode, et: EntryType) -> bool
    decreases en, 0nat,
{
    match (en, et) {
        (EntryNode::Entry { name, bytes }, EntryType::Entry(e)) => name@ == e.name@ && bytes@
            == e.buffer@,
        (EntryNode::Nested { name, dirs }, EntryType::NestedEntry(ne)) => name@ == ne.name@
            && grouped_matches(dirs@, ne.entries@),
        _ => false,
    }
}

/// Each grouped node stands for the flat node at the same position.
pub open spec fn nodes_match(ens: Seq<EntryNode>, ets: Seq<EntryType>) -> bool
    decreases ens, 1nat,
{
    ens.len() == ets.len() && forall|i: int|
        0 <= i < ens.len() ==> node_matches(#[trigger] ens[i], ets[i])
}

/// `res` is the grouping of the flat walker nodes `ns`: one directory per
/// tag in order of first appearance, each holding its nodes in order.
pub open spec fn grouped_matches(res: Seq<Directory>, ns: Seq<EntryType>) -> bool
    decreases res, 2nat,
{
    &&& res.len() == first_seen_dirs(ns).len()
    &&& forall|i: int|
        0 <= i < res.len() ==> (#[trigger] res[i]).name@ == first_seen_dirs(ns)[i]
    &&& forall|i: int|
        0 <= i < res.len() ==> nodes_match(
            (#[trigger] res[i]).entries@,
            dir_nodes(ns, first_seen_dirs(ns)[i]),
        )
}

/// The position of the last separator in `p`, or a negative number when
/// `p` holds none.
pub open spec fn last_slash(p: Seq<char>) -> int
    decreases p.len(),
{
    if p.len() == 0 {
        -1
    } else if p.last() == '/' {
        p.len() - 1
    } else {
        last_slash(p.drop_last())
    }
}

/// Everything before the last separator of `p`: its parent directory,
/// empty when `p` holds no separator.
pub open spec fn parent_of(p: Seq<char>) -> Seq<char> {
    if last_slash(p) < 0 {
        Seq::empty()
    } else {
        p.take(last_slash(p))
    }
}

/// Everything after the last separator of `p`: its own file name.
pub open spec fn file_name_of(p: Seq<char>) -> Seq<char> {
    p.skip(last_slash(p) + 1)
}

/// What is left of `parent` once the leading `src` and its separator are
/// taken off; nothing when `src` is no prefix of `parent`.
pub open spec fn strip_dir_prefix(src: Seq<char>, parent: Seq<char>) -> Option<Seq<char>> {
    if parent == src {
        Option::Some(Seq::empty())
    } else if parent.len() > src.len() && parent.take(src.len() as int) == src && parent[
        src.len() as int
    ] == '/' {
        Option::Some(parent.skip(src.len() as int + 1))
    } else {
        Option::None
    }
}

/// The index just past the last separator of `path`, scanned from the end.
fn find_name_start(path: &str) -> (i: usize)
    ensures
        i == last_slash(path@) + 1,
        i <= path@.len(),
{
    let n = path.unicode_len();
    let mut i: usize = n;
    proof {
        assert(path@.take(n as int) =~= path@);
    }
    while i > 0 && path.get_char(i - 1) != '/'
        invariant
            i <= path@.len(),
            path@.len() == n,
            last_slash(path@) == last_slash(path@.take(i as int)),
        decreases i,
    {
        proof {
            let pre = path@.take(i as int);
            assert(pre.last() == path@[i - 1]);
            assert(pre.drop_last() =~= path@.take(i - 1));
        }
        i = i - 1;
    }
    proof {
        let pre = path@.take(i as int);
        if i > 0 {
            assert(pre.last() == path@[i - 1]);
            assert(last_slash(pre) == i - 1);
        }
    }
    i
}

/// The parent directory of a separator-joined path: everything before the
/// last separator, or the empty string when there is none.
pub fn parent_from_path(src: &str, path: &str) -> (r: Result<String, ()>)
    ensures
        match r {
            Ok(s) => strip_dir_prefix(src@, parent_of(path@)) == Option::Some(s@),
            Err(u) => strip_dir_prefix(src@, parent_of(path@)) is None,
        },
{
    let i = find_name_start(path);
    let parent: &str = if i == 0 {
        path.substring_char(0, 0)
    } else {
        path.substring_char(0, i - 1)
    };
    proof {
        assert(parent@ == parent_of(path@));
    }
    let srclen = src.unicode_len();
    let plen = parent.unicode_len();
    if plen == srclen {
        if parent.to_owned().eq(&src.to_owned()) {
            let empty = String::new();
            proof {
                assert(empty@ =~= Seq::<char>::empty());
            }
            return Ok(empty);
        }
        return Err(());
    }
    if plen > srclen {
        let head = parent.substring_char(0, srclen);
        if head.to_owned().eq(&src.to_owned()) && parent.get_char(srclen) == '/' {
            let rest = parent.substring_char(srclen + 1, plen);
            proof {
                assert(parent@.take(srclen as int) == src@);
                assert(rest@ == parent@.skip(srclen + 1));
            }
            return Ok(rest.to_owned());
        }
        return Err(());
    }
    proof {
        if parent_of(path@) == src@ {
            assert(plen == srclen);
        }
    }
    Err(())
}

/// The file name of a separator-joined path: everything after the last
/// separator.
pub fn file_name_from_path(path: &str) -> (r: Result<String, ()>)
    ensures
        match r {
            Ok(s) => s@ == file_name_of(path@),
            Err(u) => false,
        },
{
    let i = find_name_start(path);
    let n = path.unicode_len();
    Ok(path.substring_char(i, n).to_owned())
}

/// Build a leaf entry from a walked file: its payload bytes, its logical
/// directory relative to the walk root, and its own name.
pub fn create_entry(src: &str, path: &str, buffer: Vec<u8>) -> (r: Result<Entry, ()>)
    ensures
        match r {
            Ok(e) => {
                &&& strip_dir_prefix(src@, parent_of(path@)) == Option::Some(e.dir@)
                &&& e.name@ == file_name_of(path@)
                &&& e.buffer == buffer
            },
            Err(u) => strip_dir_prefix(src@, parent_of(path@)) is None,
        },
{
    let dir = match parent_from_path(src, path) {
        Ok(d) => d,
        Err(_) => {
            return Err(());
        },
    };
    let name = match file_name_from_path(path) {
        Ok(n) => n,
        Err(_) => {
            return Err(());
        },
    };
    Ok(Entry { buffer, dir, name })
}

/// The directory tag of a flat walker node.
fn dir_of(et: &EntryType) -> (r: &String)
    ensures
        r@ == node_dir(*et),
{
    match et {
        EntryType::Entry(e) => &e.dir,
        EntryType::NestedEntry(n) => &n.dir,
    }
}

/// Group a flat walker forest into directories: one directory per tag, in
/// the order each tag first appears, holding its nodes in their own
/// order; a nested sub-forest is grouped the same way, recursively.  The
/// grouping is deterministic, so the same walk always encodes the same.
#[verifier::loop_isolation(false)]
#[verifier::rlimit(60)]
pub fn group_entries(ns: &Vec<EntryType>) -> (res: Vec<Directory>)
    ensures
        grouped_matches(res@, ns@),
    decreases ns@,
{
    let ghost nsq = ns@;
    let mut names: Vec<String> = Vec::new();
    let mut i: usize = 0;
    proof {
        assert(nsq.take(0) =~= Seq::<EntryType>::empty());
        assert(names@.map_values(|s: String| s@) =~= Seq::<Seq<char>>::empty());
    }
    while i < ns.len()
        invariant
            i <= nsq.len(),
            names@.map_values(|s: String| s@) == first_seen_dirs(nsq.take(i as int)),
        decreases nsq.len() - i,
    {
        let d = dir_of(&ns[i]);
        let mut found = false;
        let mut j: usize = 0;
        while j < names.len()
            invariant
                j <= names@.len(),
                found == exists|k: int| 0 <= k < j && (#[trigger] names@[k])@ == d@,
            decreases names@.len() - j,
        {
            if names[j].eq(d) {
                found = true;
            }
            j = j + 1;
        }
        let ghost fsd_pre = first_seen_dirs(nsq.take(i as int));
        proof {
            assert(nsq.take(i + 1).drop_last() =~= nsq.take(i as int));
            assert(nsq.take(i + 1).last() == nsq[i as int]);
            if found {
                let k = choose|k: int| 0 <= k < names@.len() && (#[trigger] names@[k])@ == d@;
                assert(names@.map_values(|s: String| s@)[k] == d@);
                assert(fsd_pre.contains(node_dir(nsq[i as int])));
            } else {
                if fsd_pre.contains(node_dir(nsq[i as int])) {
                    let k = choose|k: int| 0 <= k < fsd_pre.len() && fsd_pre[k] == node_dir(
                        nsq[i as int],
                    );
                    assert(names@.map_values(|s: String| s@)[k] == d@);
                    assert(names@[k]@ == d@);
                    assert(false);
                }
            }
        }
        if !found {
            let owned = d.clone();
            names.push(owned);
            proof {
                assert(names@.map_values(|s: String| s@) =~= fsd_pre.push(d@));
            }
        }
        i = i + 1;
    }
    proof {
        assert(nsq.take(nsq.len() as int) =~= nsq);
    }
    let mut out: Vec<Directory> = Vec::new();
    let mut k: usize = 0;
    while k < names.len()
        invariant
            k <= names@.len(),
            names@.map_values(|s: String| s@) == first_seen_dirs(nsq),
            out@.len() == k,
            forall|t: int|
                0 <= t < k ==> (#[trigger] out@[t]).name@ == first_seen_dirs(nsq)[t],
            forall|t: int|
                0 <= t < k ==> nodes_match(
                    (#[trigger] out@[t]).entries@,
                    dir_nodes(nsq, first_seen_dirs(nsq)[t]),
                ),
        decreases names@.len() - k,
    {
        let target = &names[k];
        let mut collected: Vec<EntryNode> = Vec::new();
        let mut j: usize = 0;
        proof {
            assert(nsq.take(0) =~= Seq::<EntryType>::empty());
        }
        while j < ns.len()
            invariant
                j <= nsq.len(),
                k < names@.len(),
                nodes_match(collected@, dir_nodes(nsq.take(j as int), names@[k as int]@)),
            decreases nsq.len() - j,
        {
            let ghost pre = dir_nodes(nsq.take(j as int), names@[k as int]@);
            proof {
                assert(nsq.take(j + 1).drop_last() =~= nsq.take(j as int));
                assert(nsq.take(j + 1).last() == nsq[j as int]);
            }
            let node = &ns[j];
            if dir_of(node).eq(target) {
                proof {
                    assert(node_dir(nsq[j as int]) == names@[k as int]@);
                    assert(dir_nodes(nsq.take(j + 1), names@[k as int]@) == pre.push(
                        nsq[j as int],
                    ));
                }
                match node {
                    EntryType::Entry(e) => {
                        let nm = e.name.clone();
                        let bf = e.buffer.clone();
                        proof {
                            assert(nm@ == e.name@);
                            assert(bf@ == e.buffer@);
                        }
                        collected.push(EntryNode::Entry { name: nm, bytes: bf });
                    },
                    EntryType::NestedEntry(ne) => {
                        proof {
                            assert(decreases_to!(nsq => nsq[j as int]));
                            assert(nsq[j as int]->NestedEntry_0 == *ne);
                            assert(decreases_to!(nsq[j as int] => nsq[j as int]->NestedEntry_0));
                            assert(decreases_to!(*ne => ne.entries));
                            assert(decreases_to!(ne.entries => ne.entries@));
                        }
                        let sub = group_entries(&ne.entries);
                        collected.push(EntryNode::Nested { name: ne.name.clone(), dirs: sub });
                    },
                }
                proof {
                    assert(node_matches(
                        collected@.last(),
                        dir_nodes(nsq.take(j + 1), names@[k as int]@).last(),
                    ));
                    assert(collected@.drop_last() =~= collected@.subrange(
                        0,
                        collected@.len() - 1,
                    ));
                    assert(nodes_match(
                        collected@,
                        dir_nodes(nsq.take(j + 1), names@[k as int]@),
                    ));
                }
            } else {
                proof {
                    assert(dir_nodes(nsq.take(j + 1), names@[k as int]@) == pre);
                }
            }
            j = j + 1;
        }
        proof {
            assert(nsq.take(nsq.len() as int) =~= nsq);
        }
        let dir = Directory { name: target.clone(), entries: collected };
        out.push(dir);
        k = k + 1;
    }
    proof {
        assert(first_seen_dirs(nsq).len() == names@.map_values(|s: String| s@).len());
    }
    out
}

} // verus!
