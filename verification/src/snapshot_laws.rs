//! What snapshots promise: the same state gives the same snapshot, and a snapshot gives back
//! the state it was taken of.

use vstd::prelude::*;
use vstd::utf8::encode_utf8;
use vstd::utf8::encode_utf8_decode_utf8;

use crate::btree::owners::owners;
use crate::bytes::be16;
use crate::bytes::be32;
use crate::dbfile::file_page;
use crate::dbfile::header_of;
use crate::dbfile::open_file;
use crate::dbfile::page_count_of;
use crate::dbfile::DbFile;
use crate::dbfile::DbHeader;
use crate::dbfile::HEADER_LEN;
use crate::dbfile::PageSource;
use crate::error::ErrorView;
use crate::manifest::id_of;
use crate::manifest::is_hash;
use crate::manifest::state_text;
use crate::manifest::ManifestView;
use crate::paths::path_key;
use crate::roundtrip::as_read;
use crate::roundtrip::manifest_is_intact;
use crate::roundtrip::one_line;
use crate::roundtrip::single;
use crate::roundtrip::state_text_is_injective;
use crate::roundtrip::writable;
use crate::sha256::digest_shape;
use crate::sha256::hex_sha256;
use crate::sha256::is_lower_hex;
use crate::snapshot::db_id;
use crate::snapshot::db_pages;
use crate::snapshot::file_pages;
use crate::snapshot::hashes_of;
use crate::snapshot::joined;
use crate::snapshot::new_pages;
use crate::snapshot::restored;
use crate::snapshot::snap_manifest;
use crate::snapshot::snap_outcome;
use crate::snapshot::snap_target;
use crate::snapshot::snapped;
use crate::snapshot::snapshot_header;
use crate::snapshot::snapshot_pages;
use crate::snapshot::with_pages;
use crate::store::branch_head_of;
use crate::store::has_sound_object;
use crate::store::is_name_char;
use crate::store::manifest_of;
use crate::store::name_refusal;
use crate::store::object_of;
use crate::store::snap_file;
use crate::store::with_branch;
use crate::store::with_manifest;
use crate::store::StoreView;
use crate::store_laws::branch_read_after_write;
use crate::store_laws::manifest_read_after_write;
use crate::store_laws::solid;
use crate::text::as_text;
use crate::text::is_hex;
use crate::text::is_space;
use crate::text::trimmed;

verus! {

// ---------------------------------------------------------------------------------------
// Storing pages
// ---------------------------------------------------------------------------------------
/// Storing pages touches nothing but the objects: exactly the keys of the pages are added, and
/// of the objects that are there only damaged ones under those keys are replaced.
pub proof fn storing_pages_only_adds(s: StoreView, pages: Seq<Seq<u8>>)
    ensures
        with_pages(s, pages) == (StoreView { objects: with_pages(s, pages).objects, ..s }),
        forall|k: Seq<char>| #[trigger]
            with_pages(s, pages).objects.contains_key(k) <==> s.objects.contains_key(k)
                || hashes_of(pages).contains(k),
        forall|k: Seq<char>| #[trigger]
            s.objects.contains_key(k) && (has_sound_object(s, k) || !hashes_of(pages).contains(k))
                ==> with_pages(s, pages).objects[k] == s.objects[k],
        forall|k: Seq<char>| #[trigger]
            hashes_of(pages).contains(k) ==> has_sound_object(with_pages(s, pages), k),
    decreases pages.len(),
{
    if pages.len() > 0 {
        let rest = pages.drop_last();
        storing_pages_only_adds(s, rest);
        let before = with_pages(s, rest);
        let last = hex_sha256(pages.last());
        let (a, b) = (hashes_of(rest), hashes_of(pages));
        assert(b =~= a.push(last));
        assert forall|k: Seq<char>| #[trigger] b.contains(k) <==> a.contains(k) || k == last by {
            if a.contains(k) {
                let i = choose|i: int| 0 <= i < a.len() && a[i] == k;
                assert(b[i] == k);
            }
            if k == last {
                assert(b[a.len() as int] == k);
            }
        }
        assert forall|k: Seq<char>| #[trigger]
            s.objects.contains_key(k) && (has_sound_object(s, k) || !b.contains(
                k,
            )) implies with_pages(s, pages).objects[k] == s.objects[k] by {
            assert(before.objects[k] == s.objects[k]);
            assert(before.objects.contains_key(k));
        }
        assert forall|k: Seq<char>| #[trigger] b.contains(k) implies has_sound_object(
            with_pages(s, pages),
            k,
        ) by {
            if k != last {
                assert(has_sound_object(before, k));
            }
        }
    }
}

/// The number of new objects that is reported is the number of objects that were added, where
/// no damaged object had to be replaced; it is never less.
pub proof fn new_pages_are_counted(s: StoreView, pages: Seq<Seq<u8>>)
    requires
        s.objects.dom().finite(),
    ensures
        with_pages(s, pages).objects.dom().finite(),
        with_pages(s, pages).objects.dom().len() <= s.objects.dom().len() + new_pages(s, pages),
        intact(s) ==> intact(with_pages(s, pages)) && with_pages(s, pages).objects.dom().len()
            == s.objects.dom().len() + new_pages(s, pages),
        new_pages(s, pages) <= pages.len(),
    decreases pages.len(),
{
    if pages.len() > 0 {
        new_pages_are_counted(s, pages.drop_last());
        let before = with_pages(s, pages.drop_last());
        let hash = hex_sha256(pages.last());
        if !has_sound_object(before, hash) {
            assert(before.objects.insert(hash, pages.last()).dom() =~= before.objects.dom().insert(
                hash,
            ));
        }
    }
}

/// Every object has the hash it is stored under.
pub open spec fn intact(s: StoreView) -> bool {
    forall|k: Seq<char>| #[trigger] s.objects.contains_key(k) ==> hex_sha256(s.objects[k]) == k
}

/// Pages that are stored already are not stored again.
pub proof fn known_pages_change_nothing(s: StoreView, pages: Seq<Seq<u8>>)
    requires
        forall|i: int|
            0 <= i < pages.len() ==> has_sound_object(s, hex_sha256(#[trigger] pages[i])),
    ensures
        with_pages(s, pages) == s,
        new_pages(s, pages) == 0,
    decreases pages.len(),
{
    if pages.len() > 0 {
        let rest = pages.drop_last();
        assert forall|i: int| 0 <= i < rest.len() implies has_sound_object(
            s,
            hex_sha256(#[trigger] rest[i]),
        ) by {
            assert(has_sound_object(s, hex_sha256(pages[i])));
        }
        known_pages_change_nothing(s, rest);
        assert(has_sound_object(s, hex_sha256(pages[pages.len() - 1])));
    }
}

/// No two different pages share a hash, among those about to be stored and those stored. (An
/// object that does not have the hash it is stored under is damaged, and collides with
/// nothing.)
pub open spec fn no_collision(s: StoreView, pages: Seq<Seq<u8>>) -> bool {
    &&& forall|i: int|
        0 <= i < pages.len() && has_sound_object(s, hex_sha256(#[trigger] pages[i]))
            ==> s.objects[hex_sha256(pages[i])] == pages[i]
    &&& forall|i: int, j: int|
        0 <= i < pages.len() && 0 <= j < pages.len() && hex_sha256(#[trigger] pages[i])
            == hex_sha256(#[trigger] pages[j]) ==> pages[i] == pages[j]
}

/// Stored pages are found under their hashes, also where damaged objects were.
pub proof fn stored_pages_are_found(s: StoreView, pages: Seq<Seq<u8>>, i: int)
    requires
        no_collision(s, pages),
        0 <= i < pages.len(),
    ensures
        object_of(with_pages(s, pages), hex_sha256(pages[i])) == Ok::<Seq<u8>, ErrorView>(pages[i]),
    decreases pages.len(),
{
    let rest = pages.drop_last();
    let last = pages.len() - 1;
    let hash = hex_sha256(pages[i]);
    storing_pages_only_adds(s, rest);
    assert(no_collision(s, rest)) by {
        assert forall|k: int| 0 <= k < rest.len() && has_sound_object(
            s,
            hex_sha256(#[trigger] rest[k]),
        ) implies s.objects[hex_sha256(rest[k])] == rest[k] by {
            assert(pages[k] == rest[k]);
        }
        assert forall|k: int, l: int| 0 <= k < rest.len() && 0 <= l < rest.len() && hex_sha256(
            #[trigger] rest[k],
        ) == hex_sha256(#[trigger] rest[l]) implies rest[k] == rest[l] by {
            assert(pages[k] == rest[k] && pages[l] == rest[l]);
        }
    }
    let before = with_pages(s, rest);
    let hs = hashes_of(rest);
    if i < last {
        stored_pages_are_found(s, rest, i);
        assert(hs[i] == hash);
        assert(hs.contains(hash));
        assert(has_sound_object(before, hash));
        if hex_sha256(pages[last]) == hash {
            assert(pages[last] == pages[i]);
        }
    } else if has_sound_object(before, hash) {
        if hs.contains(hash) {
            let k = choose|k: int| 0 <= k < hs.len() && hs[k] == hash;
            assert(hex_sha256(pages[k]) == hex_sha256(pages[i]));
            assert(rest[k] == pages[i]);
            stored_pages_are_found(s, rest, k);
        } else {
            assert(s.objects.contains_key(hash));
            assert(before.objects[hash] == s.objects[hash]);
            assert(has_sound_object(s, hash));
            assert(s.objects[hash] == pages[i]);
        }
    }
}

// ---------------------------------------------------------------------------------------
// Snapping twice
// ---------------------------------------------------------------------------------------
/// An id is 64 hexadecimal digits.
pub proof fn ids_are_hashes(page_size: u32, hashes: Seq<Seq<char>>)
    ensures
        is_hash(id_of(page_size, hashes)),
        solid(id_of(page_size, hashes)),
{
    hash_shape(encode_utf8(state_text(page_size, hashes)));
}

/// A hash is 64 hexadecimal digits.
pub proof fn hash_shape(message: Seq<u8>)
    ensures
        is_hash(hex_sha256(message)),
        solid(hex_sha256(message)),
{
    digest_shape(message);
    let h = hex_sha256(message);
    assert forall|i: int| 0 <= i < h.len() implies is_hex(#[trigger] h[i]) by {
        assert(is_lower_hex(h[i]));
    }
    assert(is_lower_hex(h[63]));
}

/// Taking a snapshot of a state that was just taken changes nothing: the branch is there
/// already, and no page is new. The message and the time play no part.
pub proof fn snap_is_idempotent(
    s: StoreView,
    db: DbFile,
    message: Seq<char>,
    now: u64,
    message2: Seq<char>,
    now2: u64,
)
    requires
        snap_target(s) is Ok,
    ensures
        ({
            let target = snap_target(s)->Ok_0;
            let once = snapped(s, db, target, message, now);
            let again = (target.0, Some(db_id(db)));
            &&& snap_target(once) == Ok::<(Seq<char>, Option<Seq<char>>), ErrorView>(again)
            &&& snapped(once, db, again, message2, now2) == once
            &&& snap_outcome(once, db, again).id == snap_outcome(s, db, target).id
            &&& !snap_outcome(once, db, again).changed
            &&& snap_outcome(once, db, again).new_objects == 0
            &&& snap_outcome(once, db, again).bytes_written == 0
            &&& snap_outcome(once, db, again).dedup_pages == snap_outcome(once, db, again).pages
        }),
{
    let target = snap_target(s)->Ok_0;
    let pages = db_pages(db);
    let id = db_id(db);
    let stored = with_pages(s, pages);
    let once = snapped(s, db, target, message, now);
    let again = (target.0, Some(id));
    storing_pages_only_adds(s, pages);
    ids_are_hashes(db.header.page_size, hashes_of(pages));
    branch_read_after_write(stored, target.0, id, target.0);
    branch_read_after_write(
        with_manifest(stored, snap_manifest(db, target, message, now)),
        target.0,
        id,
        target.0,
    );
    assert(once.objects == stored.objects);
    assert(once.head == s.head);
    if target.1 == Some(id) {
        assert(once.refs == s.refs);
    }
    assert(branch_head_of(once, target.0) == Ok::<Option<Seq<char>>, ErrorView>(Some(id)));
    assert forall|i: int| 0 <= i < pages.len() implies has_sound_object(
        once,
        hex_sha256(#[trigger] pages[i]),
    ) by {
        assert(hashes_of(pages)[i] == hex_sha256(pages[i]));
        assert(hashes_of(pages).contains(hex_sha256(pages[i])));
        assert(has_sound_object(stored, hex_sha256(pages[i])));
    }
    known_pages_change_nothing(once, pages);
    assert(0 * db.header.page_size == 0);
}

/// A state whose manifest and pages are stored already costs nothing: taking a snapshot of it
/// on another branch only moves that branch.
pub proof fn known_state_only_moves_the_branch(
    s: StoreView,
    db: DbFile,
    message: Seq<char>,
    now: u64,
)
    requires
        snap_target(s) is Ok,
        snap_target(s)->Ok_0.1 != Some(db_id(db)),
        s.snaps.contains_key(db_id(db)),
        forall|i: int|
            0 <= i < db_pages(db).len() ==> has_sound_object(
                s,
                hex_sha256(#[trigger] db_pages(db)[i]),
            ),
    ensures
        snapped(s, db, snap_target(s)->Ok_0, message, now) == with_branch(
            s,
            snap_target(s)->Ok_0.0,
            db_id(db),
        ),
        snap_outcome(s, db, snap_target(s)->Ok_0).new_objects == 0,
{
    known_pages_change_nothing(s, db_pages(db));
}

/// Two states with one id are one state, unless their descriptions collide.
pub proof fn equal_ids_mean_equal_states(
    size: u32,
    hashes: Seq<Seq<char>>,
    other_size: u32,
    other_hashes: Seq<Seq<char>>,
)
    requires
        forall|i: int| 0 <= i < hashes.len() ==> is_hash(#[trigger] hashes[i]),
        forall|i: int| 0 <= i < other_hashes.len() ==> is_hash(#[trigger] other_hashes[i]),
        id_of(size, hashes) == id_of(other_size, other_hashes),
        ({
            let a = encode_utf8(state_text(size, hashes));
            let b = encode_utf8(state_text(other_size, other_hashes));
            hex_sha256(a) == hex_sha256(b) ==> a == b
        }),
    ensures
        size == other_size,
        hashes == other_hashes,
{
    encode_utf8_decode_utf8(state_text(size, hashes));
    encode_utf8_decode_utf8(state_text(other_size, other_hashes));
    state_text_is_injective(size, hashes, other_size, other_hashes);
}

// ---------------------------------------------------------------------------------------
// Restoring what was snapped
// ---------------------------------------------------------------------------------------
/// `pages`, one after the other.
pub open spec fn concat(pages: Seq<Seq<u8>>) -> Seq<u8>
    decreases pages.len(),
{
    if pages.len() == 0 {
        Seq::empty()
    } else {
        concat(pages.drop_last()) + pages.last()
    }
}

proof fn pages_make_the_file(bytes: Seq<u8>, size: int, n: nat)
    requires
        size >= 0,
        size * n <= bytes.len(),
    ensures
        concat(Seq::new(n, |i: int| file_page(bytes, size, i + 1))) == bytes.take(size * n as int),
    decreases n,
{
    let pages = Seq::new(n, |i: int| file_page(bytes, size, i + 1));
    if n == 0 {
        assert(size * n == 0) by (nonlinear_arith)
            requires
                n == 0,
        ;
        assert(concat(pages) =~= bytes.take(size * n as int));
    } else {
        let m = (n - 1) as nat;
        assert(size * m + size == size * n && 0 <= size * m) by (nonlinear_arith)
            requires
                m == n - 1,
                m >= 0,
                size >= 0,
        ;
        assert((n - 1) * size == size * m && n * size == size * n) by (nonlinear_arith)
            requires
                m == n - 1,
        ;
        pages_make_the_file(bytes, size, m);
        assert(pages.drop_last() =~= Seq::new(m, |i: int| file_page(bytes, size, i + 1)));
        assert(pages.last() == bytes.subrange(size * m as int, size * n as int));
        assert(concat(pages) =~= bytes.take(size * n as int));
    }
}

proof fn joined_pages(s: StoreView, page_size: u32, pages: Seq<Seq<u8>>)
    requires
        forall|i: int|
            0 <= i < pages.len() ==> object_of(s, hex_sha256(#[trigger] pages[i])) == Ok::<
                Seq<u8>,
                ErrorView,
            >(pages[i]),
        forall|i: int| 0 <= i < pages.len() ==> (#[trigger] pages[i]).len() == page_size,
    ensures
        joined(s, page_size, hashes_of(pages)) == Ok::<Seq<u8>, ErrorView>(concat(pages)),
    decreases pages.len(),
{
    if pages.len() > 0 {
        let rest = pages.drop_last();
        assert forall|i: int| 0 <= i < rest.len() implies object_of(
            s,
            hex_sha256(#[trigger] rest[i]),
        ) == Ok::<Seq<u8>, ErrorView>(rest[i]) && rest[i].len() == page_size by {
            assert(pages[i] == rest[i]);
        }
        joined_pages(s, page_size, rest);
        assert(hashes_of(pages).drop_last() =~= hashes_of(rest));
        assert(hashes_of(pages).last() == hex_sha256(pages[pages.len() - 1]));
    }
}

/// `m` is a manifest of the state of `db`.
pub open spec fn describes(m: ManifestView, db: DbFile) -> bool {
    m.page_size == db.header.page_size && m.page_hashes == hashes_of(db_pages(db))
}

/// The manifest that `s` holds under the id of `db`, if it holds one, is of that state.
pub open spec fn honest_manifest(s: StoreView, db: DbFile) -> bool {
    s.snaps.contains_key(db_id(db)) ==> (manifest_of(s, db_id(db)) matches Ok(m) && describes(
        m,
        db,
    ))
}

/// The state that `m` describes and that of `db` do not share a hash, unless they are one.
pub open spec fn no_state_collision(m: ManifestView, db: DbFile) -> bool {
    let a = encode_utf8(state_text(m.page_size, m.page_hashes));
    let b = encode_utf8(state_text(db.header.page_size, hashes_of(db_pages(db))));
    hex_sha256(a) == hex_sha256(b) ==> a == b
}

/// A manifest that can be read and says the id of `db` is of the state of `db`, unless the
/// descriptions of two states collide.
pub proof fn readable_manifest_is_honest(s: StoreView, db: DbFile, m: ManifestView)
    requires
        manifest_of(s, db_id(db)) == Ok::<ManifestView, ErrorView>(m),
        m.id == db_id(db),
        no_state_collision(m, db),
    ensures
        describes(m, db),
        honest_manifest(s, db),
{
    let hashes = hashes_of(db_pages(db));
    manifest_is_intact(as_text(snap_file(s, db_id(db)).unwrap()).unwrap(), m);
    assert forall|i: int| 0 <= i < hashes.len() implies is_hash(#[trigger] hashes[i]) by {
        hash_shape(db_pages(db)[i]);
    }
    equal_ids_mean_equal_states(m.page_size, m.page_hashes, db.header.page_size, hashes);
}

/// After a snapshot of `db` was taken, every page of `db` has an object of its hash: where one
/// was missing or damaged before, it is there now.
pub proof fn snap_repairs_objects(s: StoreView, db: DbFile, message: Seq<char>, now: u64, i: int)
    requires
        snap_target(s) is Ok,
        0 <= i < db_pages(db).len(),
    ensures
        has_sound_object(
            snapped(s, db, snap_target(s)->Ok_0, message, now),
            hex_sha256(db_pages(db)[i]),
        ),
{
    let pages = db_pages(db);
    storing_pages_only_adds(s, pages);
    assert(hashes_of(pages)[i] == hex_sha256(pages[i]));
    assert(hashes_of(pages).contains(hex_sha256(pages[i])));
}

/// What a sound store is to a database that is about to be snapped: no two pages share a
/// hash (objects may be missing or damaged); the manifest of its state, if there is one, is of
/// its state; the head of the current branch, if it has one, is a single line, and if it is
/// the id of this state, its manifest is there.
pub open spec fn sound_for(s: StoreView, db: DbFile) -> bool {
    &&& no_collision(s, db_pages(db))
    &&& honest_manifest(s, db)
    &&& snap_target(s) matches Ok(target) && (target.1 matches Some(p) ==> single(p) && (p == db_id(
        db,
    ) ==> s.snaps.contains_key(p)))
}

proof fn trimmed_end(s: Seq<char>)
    ensures
        trimmed(s).len() > 0 ==> !is_space(trimmed(s).last()),
    decreases s.len(),
{
    if s.len() > 0 && is_space(s.last()) {
        trimmed_end(s.drop_last());
    }
}

proof fn names_fit_on_a_line(name: Seq<char>)
    requires
        name_refusal(name) is None,
    ensures
        one_line(name),
{
    assert forall|i: int| 0 <= i < name.len() implies name[i] != '\n' && name[i] != '\r' by {
        assert(is_name_char(name[i]));
    }
}

proof fn hashes_fit_on_a_line(h: Seq<char>)
    requires
        is_hash(h),
    ensures
        one_line(h),
{
    assert forall|i: int| 0 <= i < h.len() implies h[i] != '\n' && h[i] != '\r' by {
        assert(is_hex(h[i]));
    }
}

/// A manifest of the documented form is read back as it was written.
pub proof fn proper_manifest_reads_back(s: StoreView, m: ManifestView)
    requires
        m.id == id_of(m.page_size, m.page_hashes),
        forall|i: int| 0 <= i < m.page_hashes.len() ==> is_hash(#[trigger] m.page_hashes[i]),
        m.page_hashes.len() <= usize::MAX,
        m.parent matches Some(p) ==> is_hash(p),
        name_refusal(m.branch) is None,
        m.message.len() > 0 ==> m.message.last() != '\r',
    ensures
        manifest_of(with_manifest(s, m), m.id) == Ok::<ManifestView, ErrorView>(m),
{
    ids_are_hashes(m.page_size, m.page_hashes);
    hashes_fit_on_a_line(m.id);
    names_fit_on_a_line(m.branch);
    if let Some(p) = m.parent {
        hashes_fit_on_a_line(p);
        reveal_strlit("-");
    }
    manifest_read_after_write(s, m);
}

/// A state that is new to the store gets a manifest of its own.
pub proof fn new_manifest(s: StoreView, db: DbFile, message: Seq<char>, now: u64)
    requires
        sound_for(s, db),
        !s.snaps.contains_key(db_id(db)),
    ensures
        ({
            let target = snap_target(s)->Ok_0;
            manifest_of(snapped(s, db, target, message, now), db_id(db)) == Ok::<
                ManifestView,
                ErrorView,
            >(as_read(snap_manifest(db, target, message, now)))
        }),
{
    let target = snap_target(s)->Ok_0;
    let pages = db_pages(db);
    let id = db_id(db);
    let stored = with_pages(s, pages);
    let m = snap_manifest(db, target, message, now);
    let after = snapped(s, db, target, message, now);
    storing_pages_only_adds(s, pages);
    assert(writable(m)) by {
        ids_are_hashes(m.page_size, m.page_hashes);
        hashes_fit_on_a_line(m.id);
        names_fit_on_a_line(m.branch);
        if let Some(p) = m.parent {
            trimmed_end(as_text(s.refs[path_key(target.0)]).unwrap());
            assert(one_line(p));
        }
        assert forall|i: int| 0 <= i < m.page_hashes.len() implies is_hash(
            #[trigger] m.page_hashes[i],
        ) by {
            hash_shape(pages[i]);
        }
    }
    manifest_read_after_write(stored, m);
    assert(after.snaps == with_manifest(stored, m).snaps);
    assert(manifest_of(after, id) == manifest_of(with_manifest(stored, m), id));
}

/// After a snapshot was taken, its manifest is in the store and describes the state.
pub proof fn snapped_manifest(s: StoreView, db: DbFile, message: Seq<char>, now: u64)
    requires
        sound_for(s, db),
    ensures
        manifest_of(snapped(s, db, snap_target(s)->Ok_0, message, now), db_id(db)) matches Ok(m)
            && describes(m, db),
{
    let after = snapped(s, db, snap_target(s)->Ok_0, message, now);
    storing_pages_only_adds(s, db_pages(db));
    if s.snaps.contains_key(db_id(db)) {
        assert(after.snaps == s.snaps);
        assert(manifest_of(after, db_id(db)) == manifest_of(s, db_id(db)));
    } else {
        new_manifest(s, db, message, now);
    }
}

proof fn page_lengths(db: DbFile)
    requires
        db.wf(),
    ensures
        forall|i: int|
            0 <= i < db_pages(db).len() ==> (#[trigger] db_pages(db)[i]).len()
                == db.header.page_size,
{
    let size = db.header.page_size as int;
    let n = db.header.page_count as int;
    assert forall|i: int| 0 <= i < db_pages(db).len() implies (
    #[trigger] db_pages(db)[i]).len() == size by {
        assert((i + 1) * size - i * size == size && 0 <= i * size && (i + 1) * size <= n * size
            && n * size == size * n) by (nonlinear_arith)
            requires
                0 <= i < n,
                size >= 0,
        ;
    }
}

/// What a snapshot of `db` is restored to: its pages, byte for byte.
pub open spec fn gives_back(restored_as: Result<Seq<u8>, ErrorView>, db: DbFile) -> bool {
    let len = db.header.page_size * db.header.page_count;
    &&& restored_as == Ok::<Seq<u8>, ErrorView>(db.bytes@.take(len as int))
    &&& db.bytes@.len() == len ==> restored_as == Ok::<Seq<u8>, ErrorView>(db.bytes@)
}

proof fn described_state_is_given_back(
    s: StoreView,
    db: DbFile,
    message: Seq<char>,
    now: u64,
    m: ManifestView,
)
    requires
        db.wf(),
        snap_target(s) is Ok,
        no_collision(s, db_pages(db)),
        manifest_of(snapped(s, db, snap_target(s)->Ok_0, message, now), db_id(db)) == Ok::<
            ManifestView,
            ErrorView,
        >(m),
        describes(m, db),
    ensures
        gives_back(restored(snapped(s, db, snap_target(s)->Ok_0, message, now), db_id(db)), db),
{
    let pages = db_pages(db);
    let after = snapped(s, db, snap_target(s)->Ok_0, message, now);
    let len = db.header.page_size * db.header.page_count;
    snapped_objects(s, db, message, now);
    page_lengths(db);
    joined_pages(after, db.header.page_size, pages);
    pages_make_the_file(db.bytes@, db.header.page_size as int, db.header.page_count as nat);
    assert(pages =~= Seq::new(
        db.header.page_count as nat,
        |i: int| file_page(db.bytes@, db.header.page_size as int, i + 1),
    ));
    if db.bytes@.len() == len {
        assert(db.bytes@.take(len as int) =~= db.bytes@);
    }
}

/// Restoring a snapshot gives back the pages of the database that it was taken of, byte for
/// byte; that is the whole file where the file holds nothing but its pages.
pub proof fn restore_gives_back_what_was_snapped(
    s: StoreView,
    db: DbFile,
    message: Seq<char>,
    now: u64,
)
    requires
        db.wf(),
        sound_for(s, db),
    ensures
        gives_back(restored(snapped(s, db, snap_target(s)->Ok_0, message, now), db_id(db)), db),
{
    snapped_manifest(s, db, message, now);
    let after = snapped(s, db, snap_target(s)->Ok_0, message, now);
    described_state_is_given_back(s, db, message, now, manifest_of(after, db_id(db))->Ok_0);
}

/// Whatever state a store was in: after a snapshot was taken, restoring it gives back the pages
/// of the database, or it fails because the manifest cannot be read. (Left out are pages and
/// states that share a hash, and a manifest that lies under the id of another state.)
pub proof fn restore_gives_back_or_fails(s: StoreView, db: DbFile, message: Seq<char>, now: u64)
    requires
        db.wf(),
        snap_target(s) is Ok,
        no_collision(s, db_pages(db)),
        manifest_of(snapped(s, db, snap_target(s)->Ok_0, message, now), db_id(db)) matches Ok(m)
            ==> m.id == db_id(db) && no_state_collision(m, db),
    ensures
        ({
            let after = snapped(s, db, snap_target(s)->Ok_0, message, now);
            match manifest_of(after, db_id(db)) {
                Ok(_) => gives_back(restored(after, db_id(db)), db),
                Err(e) => restored(after, db_id(db)) == Err::<Seq<u8>, ErrorView>(e),
            }
        }),
{
    let after = snapped(s, db, snap_target(s)->Ok_0, message, now);
    if let Ok(m) = manifest_of(after, db_id(db)) {
        readable_manifest_is_honest(after, db, m);
        described_state_is_given_back(s, db, message, now, m);
    }
}

proof fn snapped_objects(s: StoreView, db: DbFile, message: Seq<char>, now: u64)
    requires
        no_collision(s, db_pages(db)),
        snap_target(s) is Ok,
    ensures
        forall|i: int|
            0 <= i < db_pages(db).len() ==> object_of(
                snapped(s, db, snap_target(s)->Ok_0, message, now),
                hex_sha256(#[trigger] db_pages(db)[i]),
            ) == Ok::<Seq<u8>, ErrorView>(db_pages(db)[i]),
{
    let target = snap_target(s)->Ok_0;
    let pages = db_pages(db);
    let after = snapped(s, db, target, message, now);
    storing_pages_only_adds(s, pages);
    assert(after.objects == with_pages(s, pages).objects);
    assert forall|i: int| 0 <= i < pages.len() implies object_of(
        after,
        hex_sha256(#[trigger] pages[i]),
    ) == Ok::<Seq<u8>, ErrorView>(pages[i]) by {
        stored_pages_are_found(s, pages, i);
    }
}

// ---------------------------------------------------------------------------------------
// Reading a snapshot as a database
// ---------------------------------------------------------------------------------------
/// The header of a file is the header of its first page, whatever follows the pages.
pub proof fn header_of_first_page(path: Seq<char>, bytes: Seq<u8>, h: DbHeader)
    requires
        open_file(path, bytes) == Ok::<DbHeader, ErrorView>(h),
        h.page_count >= 1,
    ensures
        header_of(
            file_page(bytes, h.page_size as int, 1),
            (h.page_size * h.page_count) as nat,
        ) == Ok::<DbHeader, ErrorView>(h),
        open_file(path, bytes.take((h.page_size * h.page_count) as int)) == Ok::<
            DbHeader,
            ErrorView,
        >(h),
{
    let size = h.page_size as int;
    let n = h.page_count as int;
    let head = bytes.take(HEADER_LEN as int);
    let page = file_page(bytes, size, 1);
    let cut = bytes.take(size * n);
    assert(size * n >= size && size * n >= 512) by (nonlinear_arith)
        requires
            n >= 1,
            size >= 512,
    ;
    assert(page =~= bytes.take(size));
    assert(page.take(16) =~= head.take(16));
    assert(cut.take(HEADER_LEN as int) =~= head);
    assert(be16(page, 16) == be16(head, 16));
    assert(be32(page, 24) == be32(head, 24) && be32(page, 28) == be32(head, 28) && be32(page, 32)
        == be32(head, 32) && be32(page, 36) == be32(head, 36) && be32(page, 52) == be32(head, 52)
        && be32(page, 56) == be32(head, 56) && be32(page, 92) == be32(head, 92));
    assert(page[20] == head[20]);
    assert((size * n) / size == n) by (nonlinear_arith)
        requires
            size >= 1,
    ;
    assert(page_count_of(page, (size * n) as nat, size as nat) == h.page_count);
    assert(page_count_of(head, (size * n) as nat, size as nat) == h.page_count);
    assert(cut.len() == size * n);
}

/// A restored file opens with the header of the file that was snapped, and has its pages.
pub proof fn restored_file_is_the_database(db: DbFile)
    requires
        db.wf(),
        open_file(db.path@, db.bytes@) == Ok::<DbHeader, ErrorView>(db.header),
        db.header.page_count >= 1,
    ensures
        ({
            let len = db.header.page_size * db.header.page_count;
            let file = db.bytes@.take(len as int);
            &&& open_file(db.path@, file) == Ok::<DbHeader, ErrorView>(db.header)
            &&& file_pages(file, db.header) == db_pages(db)
        }),
{
    let size = db.header.page_size as int;
    let n = db.header.page_count as int;
    let len = db.header.page_size * db.header.page_count;
    let file = db.bytes@.take(len as int);
    header_of_first_page(db.path@, db.bytes@, db.header);
    assert forall|i: int| 0 <= i < n implies #[trigger] file_pages(file, db.header)[i] == db_pages(
        db,
    )[i] by {
        assert(0 <= i * size && (i + 1) * size <= n * size && n * size == len && i * size <= (i
            + 1) * size) by (nonlinear_arith)
            requires
                0 <= i < n,
                size >= 0,
                len == size * n,
        ;
        assert(file_page(file, size, i + 1) =~= file_page(db.bytes@, size, i + 1));
    }
    assert(file_pages(file, db.header) =~= db_pages(db));
}

/// Snapshot `id` reads like `db`: same header, same pages. So whatever is computed of the one,
/// such as the owners of its pages, is computed of the other.
pub open spec fn reads_like(s: StoreView, id: Seq<char>, m: ManifestView, db: DbFile) -> bool {
    &&& snapshot_header(s, id, m) == Ok::<DbHeader, ErrorView>(db.header)
    &&& snapshot_pages(s, m, db.header) == db.pages()
    &&& owners(snapshot_pages(s, m, db.header)) == owners(db.pages())
}

proof fn described_state_reads_alike(
    s: StoreView,
    db: DbFile,
    message: Seq<char>,
    now: u64,
    m: ManifestView,
)
    requires
        db.wf(),
        open_file(db.path@, db.bytes@) == Ok::<DbHeader, ErrorView>(db.header),
        db.header.page_count >= 1,
        snap_target(s) is Ok,
        no_collision(s, db_pages(db)),
        describes(m, db),
    ensures
        reads_like(snapped(s, db, snap_target(s)->Ok_0, message, now), db_id(db), m, db),
{
    let after = snapped(s, db, snap_target(s)->Ok_0, message, now);
    let pages = db_pages(db);
    snapped_objects(s, db, message, now);
    header_of_first_page(db.path@, db.bytes@, db.header);
    assert(m.page_hashes[0] == hex_sha256(pages[0]));
    assert(pages[0] == file_page(db.bytes@, db.header.page_size as int, 1));
    assert(m.page_hashes.len() as u32 == db.header.page_count);
    let a = snapshot_pages(after, m, db.header);
    let b = db.pages();
    assert forall|p: u32| #[trigger] (a.read)(p) == (b.read)(p) by {
        if 1 <= p <= db.header.page_count {
            assert(m.page_hashes[p - 1] == hex_sha256(pages[p - 1]));
            assert(pages[p - 1] == file_page(
                db.bytes@,
                db.header.page_size as int,
                p as int,
            ));
        }
    }
    assert(a.read =~= b.read);
}

/// A snapshot reads like the file that it was taken of.
pub proof fn snapshot_reads_like_the_file(s: StoreView, db: DbFile, message: Seq<char>, now: u64)
    requires
        db.wf(),
        open_file(db.path@, db.bytes@) == Ok::<DbHeader, ErrorView>(db.header),
        db.header.page_count >= 1,
        sound_for(s, db),
    ensures
        ({
            let after = snapped(s, db, snap_target(s)->Ok_0, message, now);
            manifest_of(after, db_id(db)) matches Ok(m) && reads_like(after, db_id(db), m, db)
        }),
{
    let after = snapped(s, db, snap_target(s)->Ok_0, message, now);
    snapped_manifest(s, db, message, now);
    described_state_reads_alike(s, db, message, now, manifest_of(after, db_id(db))->Ok_0);
}

/// Whatever state a store was in: a snapshot that was taken and can be read reads like the file
/// that it was taken of. (Left out are pages and states that share a hash, and a manifest that
/// lies under the id of another state.)
pub proof fn readable_snapshot_reads_like_the_file(
    s: StoreView,
    db: DbFile,
    message: Seq<char>,
    now: u64,
    m: ManifestView,
)
    requires
        db.wf(),
        open_file(db.path@, db.bytes@) == Ok::<DbHeader, ErrorView>(db.header),
        db.header.page_count >= 1,
        snap_target(s) is Ok,
        no_collision(s, db_pages(db)),
        manifest_of(snapped(s, db, snap_target(s)->Ok_0, message, now), db_id(db)) == Ok::<
            ManifestView,
            ErrorView,
        >(m),
        m.id == db_id(db),
        no_state_collision(m, db),
    ensures
        reads_like(snapped(s, db, snap_target(s)->Ok_0, message, now), db_id(db), m, db),
{
    let after = snapped(s, db, snap_target(s)->Ok_0, message, now);
    readable_manifest_is_honest(after, db, m);
    described_state_reads_alike(s, db, message, now, m);
}

} // verus!
