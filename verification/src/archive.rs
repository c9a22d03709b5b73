//! Archive reader: lists the entry names of a ZIP archive held in
//! memory, in central-directory order, attempting decryption per entry
//! when a password is supplied. On success the archive's path is
//! recorded in the recent-files store.

use vstd::prelude::*;
use crate::recent::{RecentStore, spec_record, store_wf};
use crate::zipio::{
    archive_bytes, entry_count, entry_encrypted, open_archive, read_entry_decrypt,
    read_entry_plain, zip_encrypted, zip_entry_located, zip_entry_opens, zip_names, zip_ok,
    zip_pwd_accepted,
};

verus! {

/// The failures of the archive reader and of the store's persistence.
#[derive(Clone, Copy, Debug, PartialEq, Eq, Structural)]
pub enum ArchiveError {
    /// The archive file could not be opened at all.
    ArchiveOpenError,
    /// The bytes are not a parseable ZIP central directory.
    ArchiveFormatError,
    /// An entry's local data is missing, corrupt or unsupported.
    EntryReadError,
    /// An entry needs a password, or the supplied password was rejected.
    InvalidPasswordError,
    /// The recent-files storage could not be read or written.
    PersistenceError,
}

/// The description [`ArchiveError::message`] returns for each failure.
pub open spec fn spec_message(e: ArchiveError) -> Seq<char> {
    match e {
        ArchiveError::ArchiveOpenError => "failed to open the archive file"@,
        ArchiveError::ArchiveFormatError => "not a valid ZIP archive"@,
        ArchiveError::EntryReadError => "error reading an entry of the archive"@,
        ArchiveError::InvalidPasswordError => "a password is required or the password is wrong"@,
        ArchiveError::PersistenceError => "the recent files could not be read or written"@,
    }
}

impl ArchiveError {
    /// A short description of the failure.
    pub fn message(&self) -> (m: String)
        ensures
            m@ == spec_message(*self),
    {
        match self {
            ArchiveError::ArchiveOpenError => "failed to open the archive file".to_owned(),
            ArchiveError::ArchiveFormatError => "not a valid ZIP archive".to_owned(),
            ArchiveError::EntryReadError => "error reading an entry of the archive".to_owned(),
            ArchiveError::InvalidPasswordError => {
                "a password is required or the password is wrong".to_owned()
            },
            ArchiveError::PersistenceError => {
                "the recent files could not be read or written".to_owned()
            },
        }
    }
}

/// One entry of a listing: the entry's path within the archive, as the
/// central directory records it.
#[derive(Debug)]
pub struct ArchiveEntry {
    pub name: String,
}

impl View for ArchiveEntry {
    type V = Seq<char>;

    open spec fn view(&self) -> Seq<char> {
        self.name@
    }
}

/// The names a sequence of listing entries holds.
pub open spec fn entry_names(v: Seq<ArchiveEntry>) -> Seq<Seq<char>> {
    v.map_values(|e: ArchiveEntry| e@)
}

/// The characters of an optional password.
pub open spec fn pwd_chars(p: Option<String>) -> Option<Seq<char>> {
    match p {
        Some(s) => Some(s@),
        None => None,
    }
}

/// Whether reading entry `i` succeeds under the given password choice:
/// an encrypted entry needs a password the decryption layer accepts, an
/// unencrypted entry only needs to open (a password supplied for it is
/// ignored).
pub open spec fn entry_succeeds(b: Seq<u8>, i: int, pwd: Option<Seq<char>>) -> bool {
    if zip_encrypted(b)[i] {
        match pwd {
            Some(p) => zip_entry_opens(b, i) && zip_pwd_accepted(b, i, p),
            None => false,
        }
    } else {
        zip_entry_opens(b, i)
    }
}

pub open spec fn all_entries_succeed(b: Seq<u8>, pwd: Option<Seq<char>>) -> bool {
    forall|i: int| 0 <= i < zip_names(b).len() ==> entry_succeeds(b, i, pwd)
}

/// `j` is the first entry whose read fails.
pub open spec fn first_failure(b: Seq<u8>, pwd: Option<Seq<char>>, j: int) -> bool {
    0 <= j < zip_names(b).len() && !entry_succeeds(b, j, pwd) && forall|k: int|
        0 <= k < j ==> entry_succeeds(b, k, pwd)
}

/// The error a failure at entry `j` surfaces as. Where an entry is
/// both damaged and encrypted, or carries decryption metadata without
/// the encryption flag, either of the two reasons may be the one
/// reported.
pub open spec fn failure_error_matches(
    b: Seq<u8>,
    pwd: Option<Seq<char>>,
    j: int,
    e: ArchiveError,
) -> bool {
    if !zip_encrypted(b)[j] {
        match pwd {
            None => e == ArchiveError::EntryReadError,
            Some(_) => e == ArchiveError::EntryReadError || e == ArchiveError::InvalidPasswordError,
        }
    } else {
        match pwd {
            None => if zip_entry_located(b, j) {
                e == ArchiveError::InvalidPasswordError
            } else {
                e == ArchiveError::EntryReadError
            },
            Some(p) => if zip_entry_opens(b, j) && !zip_pwd_accepted(b, j, p) {
                e == ArchiveError::InvalidPasswordError
            } else {
                e == ArchiveError::EntryReadError || e == ArchiveError::InvalidPasswordError
            },
        }
    }
}

/// Lists the entry names of the ZIP archive whose bytes are `data`,
/// in central-directory order, unchanged: no reordering, no
/// deduplication, no filtering. With a password every entry is opened
/// with it; without one an encrypted entry fails the listing. Any
/// per-entry failure aborts the whole listing. On success, and only
/// then, `zip_file` is recorded in the recent-files store.
pub fn list_contents(
    zip_file: &str,
    data: Vec<u8>,
    password: Option<String>,
    store: &mut RecentStore,
) -> (r: Result<Vec<ArchiveEntry>, ArchiveError>)
    requires
        store_wf(old(store)@),
    ensures
        store_wf(final(store)@),
        r is Ok ==> exists|t: u64| final(store)@ == spec_record(old(store)@, zip_file@, t),
        r is Err ==> final(store)@ == old(store)@,
        r is Ok <==> zip_ok(data@) && all_entries_succeed(data@, pwd_chars(password)),
        r matches Ok(v) ==> entry_names(v@) == zip_names(data@),
        !zip_ok(data@) ==> (r matches Err(e) && e == ArchiveError::ArchiveFormatError),
        zip_ok(data@) ==> (r matches Err(e) ==> exists|j: int|
            #[trigger] first_failure(data@, pwd_chars(password), j) && failure_error_matches(
                data@,
                pwd_chars(password),
                j,
                e,
            )),
{
    let ghost b = data@;
    let ghost pv = pwd_chars(password);
    let mut archive = match open_archive(data) {
        Ok(a) => a,
        Err(e) => {
            return Err(e);
        },
    };
    let n = entry_count(&archive);
    let mut out: Vec<ArchiveEntry> = Vec::new();
    proof {
        assert(entry_names(out@) =~= zip_names(b).take(0));
    }
    let mut i: usize = 0;
    while i < n
        invariant
            store_wf(old(store)@),
            *store == *old(store),
            b == data@,
            archive_bytes(archive) == b,
            zip_ok(b),
            n == zip_names(b).len(),
            n == zip_encrypted(b).len(),
            pv == pwd_chars(password),
            i <= n,
            entry_names(out@) == zip_names(b).take(i as int),
            forall|k: int| 0 <= k < i ==> entry_succeeds(b, k, pv),
        decreases n - i,
    {
        let name = match &password {
            Some(p) => {
                match read_entry_decrypt(&mut archive, i, p.as_str()) {
                    Ok(s) => s,
                    Err(e) => {
                        proof {
                            assert(!entry_succeeds(b, i as int, pv));
                            assert(!all_entries_succeed(b, pv));
                            assert(first_failure(b, pv, i as int));
                            assert(failure_error_matches(b, pv, i as int, e));
                        }
                        return Err(e);
                    },
                }
            },
            None => {
                let enc = match entry_encrypted(&mut archive, i) {
                    Ok(x) => x,
                    Err(e) => {
                        proof {
                            assert(!entry_succeeds(b, i as int, pv));
                            assert(!all_entries_succeed(b, pv));
                            assert(first_failure(b, pv, i as int));
                            assert(failure_error_matches(b, pv, i as int, e));
                        }
                        return Err(e);
                    },
                };
                if enc {
                    proof {
                        assert(!entry_succeeds(b, i as int, pv));
                        assert(!all_entries_succeed(b, pv));
                        assert(first_failure(b, pv, i as int));
                        assert(failure_error_matches(
                            b,
                            pv,
                            i as int,
                            ArchiveError::InvalidPasswordError,
                        ));
                    }
                    return Err(ArchiveError::InvalidPasswordError);
                }
                match read_entry_plain(&mut archive, i) {
                    Ok(s) => s,
                    Err(e) => {
                        proof {
                            assert(!entry_succeeds(b, i as int, pv));
                            assert(!all_entries_succeed(b, pv));
                            assert(first_failure(b, pv, i as int));
                            assert(failure_error_matches(b, pv, i as int, e));
                        }
                        return Err(e);
                    },
                }
            },
        };
        let ghost out_before = out@;
        out.push(ArchiveEntry { name });
        proof {
            assert(entry_succeeds(b, i as int, pv));
            assert(entry_names(out_before).len() == out_before.len());
            assert(out_before.len() == i as int);
            assert(out@.drop_last() == out_before);
            assert(out@.last()@ == zip_names(b)[i as int]);
            assert forall|q: int|
                0 <= q < i as int + 1 implies entry_names(out@)[q] == zip_names(b).take(
                i as int + 1,
            )[q] by {
                if q < i as int {
                    assert(out@[q] == out_before[q]);
                    assert(entry_names(out_before)[q] == zip_names(b).take(i as int)[q]);
                } else {
                    assert(out@[q] == out@.last());
                }
            }
            assert(entry_names(out@) =~= zip_names(b).take(i as int + 1));
        }
        i = i + 1;
    }
    proof {
        assert(zip_names(b).take(n as int) =~= zip_names(b));
        assert(all_entries_succeed(b, pv));
    }
    store.add_recent_file(zip_file);
    Ok(out)
}

} // verus!
