//! Index rendering: a markdown table of the records re-filed inside one
//! folder, uploaded as that folder's readme.

use vstd::prelude::*;

use crate::clients::DropboxClient;
use crate::models::{FileRecord, RecordModel, RemotePath};
use crate::storage::{folder_records, sorted_by_title, Storage};
use crate::text::{join_strings, join_with};

verus! {

/// The position of the last path separator, or `-1` when there is none.
pub open spec fn last_slash(p: Seq<char>) -> int
    decreases p.len(),
{
    if p.len() == 0 {
        -1
    } else if p.last() == '/' {
        p.len() - 1
    } else {
        last_slash(p.drop_last())
    }
}

/// What `last_slash` names: a separator with nothing but other characters
/// after it, or `-1` when the path has no separator at all.
pub proof fn lemma_last_slash(p: Seq<char>)
    ensures
        -1 <= last_slash(p) < p.len(),
        last_slash(p) >= 0 ==> p[last_slash(p)] == '/',
        forall|j: int| last_slash(p) < j < p.len() ==> p[j] != '/',
    decreases p.len(),
{
    if p.len() > 0 && p.last() != '/' {
        lemma_last_slash(p.drop_last());
        let butlast = p.drop_last();
        assert forall|j: int| last_slash(p) < j < p.len() implies p[j] != '/' by {
            if j < p.len() - 1 {
                assert(butlast[j] == p[j]);
            }
        }
    }
}

/// The file name a path ends in: everything after its last separator.
pub open spec fn file_part(p: Seq<char>) -> Seq<char> {
    p.subrange(last_slash(p) + 1, p.len() as int)
}

/// Extracts the file name a path ends in.
pub fn file_part_of(p: &str) -> (r: String)
    ensures
        r@ == file_part(p@),
{
    proof {
        lemma_last_slash(p@);
    }
    let n = p.unicode_len();
    let mut i: usize = n;
    while i > 0
        invariant
            i <= n,
            n == p@.len(),
            forall|j: int| i <= j < p@.len() ==> p@[j] != '/',
        decreases i,
    {
        i = i - 1;
        if p.get_char(i) == '/' {
            proof {
                lemma_last_slash(p@);
                let ls = last_slash(p@);
                if ls < i {
                    assert(p@[i as int] != '/');
                }
                if ls > i {
                    assert(p@[ls] != '/');
                }
            }
            let tail = p.substring_char(i + 1, n);
            return String::from_str(tail);
        }
    }
    proof {
        lemma_last_slash(p@);
        let ls = last_slash(p@);
        if ls >= 0 {
            assert(p@[ls] != '/');
        }
        assert(p@.subrange(0, p@.len() as int) =~= p@);
    }
    String::from_str(p)
}

/// The title column of one row.
pub open spec fn title_text(r: RecordModel) -> Seq<char> {
    match r.title {
        Some(t) => t,
        None => "Unknown"@,
    }
}

/// The link column of one row: the file name of the first written target.
pub open spec fn link_text(r: RecordModel) -> Seq<char> {
    match r.target_paths {
        Some(tps) => if tps.len() > 0 {
            file_part(tps[0])
        } else {
            Seq::empty()
        },
        None => Seq::empty(),
    }
}

/// The authors column of one row.
pub open spec fn authors_text(r: RecordModel) -> Seq<char> {
    match r.authors {
        Some(a) => join_with(a, ", "@),
        None => Seq::empty(),
    }
}

/// The summary column of one row.
pub open spec fn summary_text(r: RecordModel) -> Seq<char> {
    match r.summary {
        Some(s) => s,
        None => Seq::empty(),
    }
}

/// One table row of the index.
pub open spec fn index_row(r: RecordModel) -> Seq<char> {
    "| ["@ + title_text(r) + "]("@ + link_text(r) + ") | "@ + authors_text(r) + " | "@
        + summary_text(r) + " |\n"@
}

/// The table's header.
pub open spec fn index_header() -> Seq<char> {
    "| Title | Authors | Summary |\n| :--- | :--- | :--- |\n"@
}

/// The rows, one per record, in the given order.
pub open spec fn rows_of(recs: Seq<RecordModel>) -> Seq<char>
    decreases recs.len(),
{
    if recs.len() == 0 {
        Seq::empty()
    } else {
        rows_of(recs.drop_last()) + index_row(recs.last())
    }
}

/// The whole index document.
pub open spec fn index_text(recs: Seq<RecordModel>) -> Seq<char> {
    index_header() + rows_of(recs)
}

/// Renders one table row.
fn render_row(rec: &FileRecord) -> (r: String)
    ensures
        r@ == index_row(rec@),
{
    let mut s = String::from_str("| [");
    match &rec.title {
        Some(t) => s.append(t.as_str()),
        None => s.append("Unknown"),
    }
    s.append("](");
    match &rec.target_paths {
        Some(tps) => {
            if tps.len() > 0 {
                let fp = file_part_of(tps[0].0.as_str());
                proof {
                    assert(tps.deep_view()[0] == tps@[0]@);
                }
                s.append(fp.as_str());
            } else {
                proof {
                    assert(tps.deep_view().len() == 0);
                }
            }
        },
        None => {},
    }
    s.append(") | ");
    match &rec.authors {
        Some(a) => {
            let joined = join_strings(a, ", ");
            s.append(joined.as_str());
        },
        None => {},
    }
    s.append(" | ");
    match &rec.summary {
        Some(sm) => s.append(sm.as_str()),
        None => {},
    }
    s.append(" |\n");
    proof {
        assert(s@ =~= index_row(rec@));
    }
    s
}

/// Renders the index document for the given records.
pub fn render_index(files: &Vec<FileRecord>) -> (r: String)
    ensures
        r@ == index_text(files.deep_view()),
{
    let mut s = String::from_str("| Title | Authors | Summary |\n| :--- | :--- | :--- |\n");
    let mut i: usize = 0;
    proof {
        assert(s@ =~= index_text(files.deep_view().take(0)));
    }
    while i < files.len()
        invariant
            i <= files@.len(),
            files.deep_view().len() == files@.len(),
            forall|j: int| 0 <= j < files@.len() ==> files.deep_view()[j] == files@[j]@,
            s@ == index_text(files.deep_view().take(i as int)),
        decreases files.len() - i,
    {
        let row = render_row(&files[i]);
        s.append(row.as_str());
        proof {
            assert(files.deep_view().take(i + 1).drop_last() =~= files.deep_view().take(i as int));
            assert(files.deep_view().take(i + 1).last() == files@[i as int]@);
            assert(s@ =~= index_text(files.deep_view().take(i + 1)));
        }
        i = i + 1;
    }
    proof {
        assert(files.deep_view().take(files@.len() as int) =~= files.deep_view());
    }
    s
}

/// Regenerates the folder's index: reads the records re-filed inside it,
/// renders the table, and uploads it as the folder's readme.  An empty
/// selection is a no-op, not an error; a successful upload leaves exactly
/// the rendered index, encoded, at the readme path.
pub fn generate_index<D: DropboxClient>(storage: &Storage, dropbox: &mut D, folder: &str) -> (r:
    Result<(), String>)
    ensures
        ({
            let sel = sorted_by_title(folder_records(storage.recs(), folder@));
            &&& (sel.len() == 0 ==> r is Ok && final(dropbox).files() == old(dropbox).files())
            &&& (sel.len() > 0 && r is Ok ==> final(dropbox).files() == old(
                dropbox,
            ).files().insert(folder@ + "/README.md"@, vstd::utf8::encode_utf8(index_text(sel))))
            &&& (r is Err ==> final(dropbox).files() == old(dropbox).files())
        }),
{
    let files = storage.get_files_in_folder(folder);
    if files.len() == 0 {
        return Ok(());
    }
    let markdown = render_index(&files);
    let mut path = String::from_str(folder);
    path.append("/README.md");
    let readme = RemotePath(path);
    let bytes = markdown.as_str().as_bytes_vec();
    dropbox.upload_file(&readme, bytes)
}

} // verus!
