//! Trusted interface to the content-addressable object store (the `git2`
//! crate) and to the citation-hash multimap (the `collecting_hashmap`
//! crate).
//!
//! Git object ids are content hashes: the id of a blob is a function of its
//! bytes alone, and the id of a tree is a function of its entries alone, the
//! same in every repository and on every machine. A commit id also covers
//! the time of its creation, so nothing is stated of its value.

use vstd::prelude::*;

verus! {

#[verifier::external_type_specification]
#[verifier::external_body]
pub struct ExRepository(git2::Repository);

#[verifier::external_type_specification]
#[verifier::external_body]
pub struct ExTreeBuilder<'repo>(git2::TreeBuilder<'repo>);

#[verifier::external_type_specification]
#[verifier::external_body]
pub struct ExGitError(git2::Error);

/// The object id of the blob holding this text (as UTF-8 bytes).
pub uninterp spec fn blob_oid_of(text: Seq<char>) -> Seq<u8>;

/// What a tree builder holds: entry name to object id and file mode.
pub uninterp spec fn builder_view(b: git2::TreeBuilder) -> Map<Seq<char>, (Seq<u8>, i32)>;

/// The object id of the tree holding these entries.
pub uninterp spec fn tree_oid_of(entries: Map<Seq<char>, (Seq<u8>, i32)>) -> Seq<u8>;

/// An empty set of tree entries.
pub open spec fn no_entries() -> Map<Seq<char>, (Seq<u8>, i32)> {
    Map::empty()
}

/// Relies on git2::Repository::blob: writes the blob and returns its id, 20
/// bytes of content hash over the data alone.
#[verifier::external_body]
pub fn put_text_blob(repo: &git2::Repository, text: &str) -> (r: Result<Vec<u8>, git2::Error>)
    ensures
        r matches Ok(id) ==> id@ === blob_oid_of(text@) && id@.len() == 20,
{
    match repo.blob(text.as_bytes()) {
        Ok(oid) => Ok(oid.as_bytes().to_vec()),
        Err(e) => Err(e),
    }
}

/// Relies on git2::Repository::treebuilder: a fresh builder holding no
/// entry.
#[verifier::external_body]
pub fn new_treebuilder<'repo>(repo: &'repo git2::Repository) -> (r: Result<
    git2::TreeBuilder<'repo>,
    git2::Error,
>)
    ensures
        r matches Ok(b) ==> builder_view(b) === no_entries(),
{
    repo.treebuilder(None)
}

/// Relies on git2::TreeBuilder::insert, which validates the entry name and
/// file mode before touching the builder: on success the entry is added,
/// replacing an entry of the same name.
#[verifier::external_body]
pub fn tree_insert(
    b: &mut git2::TreeBuilder,
    name: &String,
    oid: &Vec<u8>,
    filemode: i32,
) -> (r: Result<(), git2::Error>)
    requires
        oid@.len() == 20,
    ensures
        r is Ok ==> builder_view(*final(b)) === builder_view(*old(b)).insert(
            name@,
            (oid@, filemode),
        ),
{
    let o = match git2::Oid::from_bytes(oid.as_slice()) {
        Ok(o) => o,
        Err(e) => return Err(e),
    };
    match b.insert(name.as_str(), o, filemode) {
        Ok(_) => Ok(()),
        Err(e) => Err(e),
    }
}

/// Relies on git2::TreeBuilder::write: writes the tree object and returns
/// its id, 20 bytes of content hash over the entries alone.
#[verifier::external_body]
pub fn tree_write(b: &git2::TreeBuilder) -> (r: Result<Vec<u8>, git2::Error>)
    ensures
        r matches Ok(id) ==> id@ === tree_oid_of(builder_view(*b)) && id@.len() == 20,
{
    match b.write() {
        Ok(oid) => Ok(oid.as_bytes().to_vec()),
        Err(e) => Err(e),
    }
}

/// Relies on git2::Repository::find_tree, git2::Signature::now and
/// git2::Repository::commit: wraps the tree in a parentless commit and
/// returns the commit id. The id covers the signature's timestamp, so only
/// its length is stated.
#[verifier::external_body]
pub fn commit_tree(
    repo: &git2::Repository,
    tree_oid: &Vec<u8>,
    author: &str,
    email: &str,
    message: &str,
) -> (r: Result<Vec<u8>, git2::Error>)
    requires
        tree_oid@.len() == 20,
    ensures
        r matches Ok(id) ==> id@.len() == 20,
{
    let oid = match git2::Oid::from_bytes(tree_oid.as_slice()) {
        Ok(o) => o,
        Err(e) => return Err(e),
    };
    let tree = repo.find_tree(oid)?;
    let sig = git2::Signature::now(author, email)?;
    let commit = repo.commit(None, &sig, &sig, message, &tree, &[])?;
    Ok(commit.as_bytes().to_vec())
}

/// Relies on git2::Repository::find_commit and git2::Repository::branch:
/// publishes a branch of the given name at the commit, without forcing.
#[verifier::external_body]
pub fn publish_branch(
    repo: &git2::Repository,
    name: &str,
    commit_id: &Vec<u8>,
) -> (r: Result<(), git2::Error>)
    requires
        commit_id@.len() == 20,
{
    let oid = match git2::Oid::from_bytes(commit_id.as_slice()) {
        Ok(o) => o,
        Err(e) => return Err(e),
    };
    let commit = repo.find_commit(oid)?;
    repo.branch(name, &commit, false)?;
    Ok(())
}

// ---------------------------------------------------------------------------
// The citation-hash multimap: node index to the blob ids stored for it.
// ---------------------------------------------------------------------------

#[verifier::external_type_specification]
#[verifier::external_body]
#[verifier::reject_recursive_types(K)]
#[verifier::reject_recursive_types(V)]
#[verifier::reject_recursive_types(S)]
pub struct ExCollectingHashMap<K: core::hash::Hash + core::cmp::Eq, V, S: core::hash::BuildHasher>(
    collecting_hashmap::CollectingHashMap<K, V, S>,
);

/// The citation-blob multimap: for each node index, the ids of the citation
/// blobs attached to it.
pub type CiteHashes = collecting_hashmap::CollectingHashMap<usize, Vec<u8>>;

/// What the citation-blob multimap holds, per node index and in insertion
/// order.
pub uninterp spec fn cite_hashes_view(m: CiteHashes) -> Map<int, Seq<Seq<u8>>>;

/// An empty citation-blob map.
pub open spec fn no_cite_hashes() -> Map<int, Seq<Seq<u8>>> {
    Map::empty()
}

/// A citation-blob map after one insertion: the id is appended to the
/// node's list, a first id starts the list.
pub open spec fn cite_hashes_insert_spec(m: Map<int, Seq<Seq<u8>>>, k: int, v: Seq<u8>) -> Map<
    int,
    Seq<Seq<u8>>,
> {
    if m.dom().contains(k) {
        m.insert(k, m[k].push(v))
    } else {
        m.insert(k, seq![v])
    }
}

/// Relies on collecting_hashmap::CollectingHashMap::new: the new map holds
/// nothing.
#[verifier::external_body]
pub fn cite_hashes_new() -> (r: CiteHashes)
    ensures
        cite_hashes_view(r) === no_cite_hashes(),
{
    collecting_hashmap::CollectingHashMap::new()
}

/// Relies on collecting_hashmap::CollectingHashMap::insert: appends the
/// value to the key's list, starting a fresh list for a new key.
#[verifier::external_body]
pub fn cite_hashes_insert(m: &mut CiteHashes, k: usize, v: Vec<u8>)
    ensures
        cite_hashes_view(*final(m)) === cite_hashes_insert_spec(
            cite_hashes_view(*old(m)),
            k as int,
            v@,
        ),
{
    m.insert(k, v);
}

/// Relies on collecting_hashmap::CollectingHashMap::get_all: the key's
/// list, or None for a key never inserted.
#[verifier::external_body]
pub fn cite_hashes_get_all(m: &CiteHashes, k: usize) -> (r: Option<Vec<Vec<u8>>>)
    ensures
        match r {
            Some(v) => cite_hashes_view(*m).dom().contains(k as int) && v.deep_view()
                === cite_hashes_view(*m)[k as int],
            None => !cite_hashes_view(*m).dom().contains(k as int),
        },
{
    m.get_all(&k).cloned()
}

} // verus!
