use vstd::prelude::*;

use crate::extract::{bundled_jar_entry, first_line, last_word, tag_file, tag_file_path};
use crate::lookup::strings_view;
use crate::order::pairs_view;

verus! {

/// What went wrong while reading a jar.
#[derive(Debug, Clone, Copy, PartialEq, Eq, Structural)]
pub enum JarErrorKind {
    /// The bytes are not a zip archive.
    NotAJar,
    /// An entry, or the list of entry names, could not be read.
    Unreadable,
    /// `META-INF/versions.list` is not UTF-8 text.
    InvalidVersionsList,
    /// The first line of `META-INF/versions.list` names no jar.
    EmptyVersionsList,
    /// The jar that `META-INF/versions.list` names is not in the bundler.
    MissingInner,
    /// The bundled jar is not a zip archive.
    InvalidBundledJar,
    /// The data archive has no `version.json`.
    NoVersionJson,
    /// The data archive holds no block tag file.
    NoBlockTags,
}

/// A failure to read a jar, and the entry it concerns (empty where it
/// concerns the archive as a whole).
#[derive(Debug, Clone, PartialEq, Eq)]
pub struct JarError {
    pub kind: JarErrorKind,
    pub entry: String,
}

impl View for JarError {
    type V = (JarErrorKind, Seq<char>);

    open spec fn view(&self) -> (JarErrorKind, Seq<char>) {
        (self.kind, self.entry@)
    }
}

fn whole_jar_error(kind: JarErrorKind) -> (e: JarError)
    ensures
        e@ == (kind, Seq::<char>::empty()),
{
    JarError { kind, entry: String::new() }
}

fn jar_error(kind: JarErrorKind, entry: &str) -> (e: JarError)
    ensures
        e@ == (kind, entry@),
{
    JarError { kind, entry: entry.to_owned() }
}

/// Whether `zip::ZipArchive::new` accepts the bytes as a zip archive.
pub uninterp spec fn zip_opens(archive: Seq<u8>) -> bool;

/// What reading one entry of an archive gives: `None` where the bytes are
/// not a readable archive or the entry cannot be read, `Some(None)` where
/// the archive has no entry of that name, else the entry's bytes.
pub uninterp spec fn zip_entry_of(archive: Seq<u8>, name: Seq<char>) -> Option<Option<Seq<u8>>>;

/// The names of an archive's entries in the order of its central
/// directory, or `None` where the bytes are not a readable archive or a
/// name cannot be decoded.
pub uninterp spec fn zip_names_of(archive: Seq<u8>) -> Option<Seq<Seq<char>>>;

/// `zip::ZipArchive::new` on the bytes: whether it opens them.
#[verifier::external_body]
fn zip_check(archive: &[u8]) -> (r: bool)
    ensures
        r == zip_opens(archive@),
{
    zip::ZipArchive::new(std::io::Cursor::new(archive)).is_ok()
}

/// What reading an entry gave, by value.
pub open spec fn entry_view(r: Option<Option<Vec<u8>>>) -> Option<Option<Seq<u8>>> {
    match r {
        Some(Some(b)) => Some(Some(b@)),
        Some(None) => Some(None),
        None => None,
    }
}

/// `zip::ZipArchive::new`, then `by_name` and `read_to_end`: the bytes of
/// the named entry; `Some(None)` where `by_name` answers `FileNotFound`,
/// `None` on any other failure.
#[verifier::external_body]
fn zip_entry_bytes(archive: &[u8], name: &str) -> (r: Option<Option<Vec<u8>>>)
    ensures
        entry_view(r) == zip_entry_of(archive@, name@),
{
    let Ok(mut zip) = zip::ZipArchive::new(std::io::Cursor::new(archive)) else { return None };
    let mut entry = match zip.by_name(name) {
        Ok(entry) => entry,
        Err(zip::result::ZipError::FileNotFound) => return Some(None),
        Err(_) => return None,
    };
    let mut bytes = Vec::new();
    std::io::Read::read_to_end(&mut entry, &mut bytes).ok().map(|_| Some(bytes))
}

/// `zip::ZipArchive::new`, then `file_names`: the names of the entries,
/// `None` where the archive does not open or a name does not decode.
#[verifier::external_body]
fn zip_names(archive: &[u8]) -> (r: Option<Vec<String>>)
    ensures
        match r {
            Some(v) => zip_names_of(archive@) == Some(strings_view(v@)),
            None => zip_names_of(archive@) is None,
        },
{
    let zip = zip::ZipArchive::new(std::io::Cursor::new(archive)).ok()?;
    zip.file_names().map(|name| name.map(String::from)).collect::<Result<Vec<String>, _>>().ok()
}

/// `String::from_utf8`: the text the bytes encode, if they are UTF-8.
#[verifier::external_body]
fn utf8_text(bytes: Vec<u8>) -> (r: Option<String>)
    ensures
        match r {
            Some(s) => vstd::utf8::valid_utf8(bytes@) && s@ == vstd::utf8::decode_utf8(bytes@),
            None => !vstd::utf8::valid_utf8(bytes@),
        },
{
    String::from_utf8(bytes).ok()
}

/// Where a bundler jar lists the jars it bundles.
pub open spec fn versions_list_entry() -> Seq<char> {
    "META-INF/versions.list"@
}

/// The data that a jar holds is read from: the jar itself for a plain jar
/// (no `META-INF/versions.list`), the bundled jar that the list's first
/// line names for a bundler; and whether it is a bundler.
pub open spec fn data_archive_of(jar: Seq<u8>) -> Result<(Seq<u8>, bool), (JarErrorKind, Seq<char>)> {
    if !zip_opens(jar) {
        Err((JarErrorKind::NotAJar, Seq::empty()))
    } else {
        match zip_entry_of(jar, versions_list_entry()) {
            None => Err((JarErrorKind::Unreadable, versions_list_entry())),
            Some(None) => Ok((jar, false)),
            Some(Some(list)) => if !vstd::utf8::valid_utf8(list) {
                Err((JarErrorKind::InvalidVersionsList, versions_list_entry()))
            } else {
                match first_line(vstd::utf8::decode_utf8(list)) {
                    Some(line) => match last_word(line) {
                        Some(w) => bundled_archive("META-INF/versions/"@ + w, zip_entry_of(jar, "META-INF/versions/"@ + w)),
                        None => Err((JarErrorKind::EmptyVersionsList, versions_list_entry())),
                    },
                    None => Err((JarErrorKind::EmptyVersionsList, versions_list_entry())),
                }
            },
        }
    }
}

/// The bundled jar at `path`, from what reading that entry gave.
pub open spec fn bundled_archive(path: Seq<char>, read: Option<Option<Seq<u8>>>) -> Result<(Seq<u8>, bool), (JarErrorKind, Seq<char>)> {
    match read {
        None => Err((JarErrorKind::Unreadable, path)),
        Some(None) => Err((JarErrorKind::MissingInner, path)),
        Some(Some(inner)) => if zip_opens(inner) {
            Ok((inner, true))
        } else {
            Err((JarErrorKind::InvalidBundledJar, path))
        },
    }
}

/// What opening a jar for its data gave, by value.
pub open spec fn archive_view(r: Result<(Vec<u8>, bool), JarError>) -> Result<(Seq<u8>, bool), (JarErrorKind, Seq<char>)> {
    match r {
        Ok((a, b)) => Ok((a@, b)),
        Err(e) => Err(e@),
    }
}

/// Opens a jar for its data: bundler-style server jars keep `version.json`
/// and the vanilla datapack in the jar that `META-INF/versions.list` names;
/// client jars and older server jars keep them in the jar itself. Gives the
/// bytes of that archive and whether the jar is a bundler.
pub fn data_archive(jar: Vec<u8>) -> (r: Result<(Vec<u8>, bool), JarError>)
    ensures
        archive_view(r) == data_archive_of(jar@),
{
    if !zip_check(jar.as_slice()) {
        return Err(whole_jar_error(JarErrorKind::NotAJar));
    }
    let list = match zip_entry_bytes(jar.as_slice(), "META-INF/versions.list") {
        None => return Err(jar_error(JarErrorKind::Unreadable, "META-INF/versions.list")),
        Some(None) => return Ok((jar, false)),
        Some(Some(list)) => list,
    };
    let text = match utf8_text(list) {
        None => return Err(jar_error(JarErrorKind::InvalidVersionsList, "META-INF/versions.list")),
        Some(text) => text,
    };
    let path = match bundled_jar_entry(text.as_str()) {
        None => return Err(jar_error(JarErrorKind::EmptyVersionsList, "META-INF/versions.list")),
        Some(path) => path,
    };
    match zip_entry_bytes(jar.as_slice(), path.as_str()) {
        None => Err(JarError { kind: JarErrorKind::Unreadable, entry: path }),
        Some(None) => Err(JarError { kind: JarErrorKind::MissingInner, entry: path }),
        Some(Some(inner)) => if zip_check(inner.as_slice()) {
            Ok((inner, true))
        } else {
            Err(JarError { kind: JarErrorKind::InvalidBundledJar, entry: path })
        },
    }
}

/// The bytes of an archive's entry, `None` where it has no such entry.
pub fn zip_entry(archive: &[u8], name: &str) -> (r: Result<Option<Vec<u8>>, JarError>)
    ensures
        match r {
            Ok(Some(b)) => zip_entry_of(archive@, name@) == Some(Some(b@)),
            Ok(None) => zip_entry_of(archive@, name@) == Some(None::<Seq<u8>>),
            Err(e) => zip_entry_of(archive@, name@) is None && e@ == (JarErrorKind::Unreadable, name@),
        },
{
    match zip_entry_bytes(archive, name) {
        Some(found) => Ok(found),
        None => Err(jar_error(JarErrorKind::Unreadable, name)),
    }
}

/// The `version.json` of a data archive.
pub fn version_json(archive: &[u8]) -> (r: Result<Vec<u8>, JarError>)
    ensures
        match r {
            Ok(b) => zip_entry_of(archive@, "version.json"@) == Some(Some(b@)),
            Err(e) => match zip_entry_of(archive@, "version.json"@) {
                None => e@ == (JarErrorKind::Unreadable, "version.json"@),
                Some(None) => e@ == (JarErrorKind::NoVersionJson, "version.json"@),
                Some(Some(_)) => false,
            },
        },
{
    match zip_entry(archive, "version.json") {
        Ok(Some(bytes)) => Ok(bytes),
        Ok(None) => Err(jar_error(JarErrorKind::NoVersionJson, "version.json")),
        Err(e) => Err(e),
    }
}

/// The block tag files among an archive's entries, in archive order: each
/// entry's name and its path relative to its tag directory.
pub open spec fn tag_entries(names: Seq<Seq<char>>) -> Seq<(Seq<char>, Seq<char>)>
    decreases names.len(),
{
    if names.len() == 0 {
        Seq::empty()
    } else {
        let rest = tag_entries(names.drop_last());
        match tag_file(names.last()) {
            Some(rel) => rest.push((names.last(), rel)),
            None => rest,
        }
    }
}

/// The block tag files among entry names, in the order given: each name
/// with its path relative to its tag directory.
pub fn block_tags_among(names: &Vec<String>) -> (r: Vec<(String, String)>)
    ensures
        pairs_view(r@) == tag_entries(strings_view(names@)),
{
    let ghost all = strings_view(names@);
    let mut out: Vec<(String, String)> = Vec::new();
    let mut i: usize = 0;
    assert(all.take(0) =~= Seq::<Seq<char>>::empty());
    while i < names.len()
        invariant
            i <= names@.len(),
            all == strings_view(names@),
            pairs_view(out@) == tag_entries(all.take(i as int)),
        decreases names@.len() - i,
    {
        assert(all.take(i + 1).drop_last() =~= all.take(i as int));
        assert(all.take(i + 1).last() == names@[i as int]@);
        if let Some(rel) = tag_file_path(names[i].as_str()) {
            out.push((names[i].clone(), rel));
        }
        assert(pairs_view(out@) =~= tag_entries(all.take(i + 1)));
        i += 1;
    }
    assert(all.take(i as int) =~= all);
    out
}

/// The block tag entries of a data archive, in archive order, with their
/// paths relative to the tag directory (both the `tags/block/` layout of
/// 1.21 and later and the older `tags/blocks/`).
pub fn block_tag_entries(archive: &[u8]) -> (r: Result<Vec<(String, String)>, JarError>)
    ensures
        match zip_names_of(archive@) {
            None => r matches Err(e) && e@ == (JarErrorKind::Unreadable, Seq::<char>::empty()),
            Some(names) => if tag_entries(names).len() == 0 {
                r matches Err(e) && e@ == (JarErrorKind::NoBlockTags, Seq::<char>::empty())
            } else {
                r matches Ok(v) && pairs_view(v@) == tag_entries(names)
            },
        },
{
    let names = match zip_names(archive) {
        None => return Err(whole_jar_error(JarErrorKind::Unreadable)),
        Some(names) => names,
    };
    let out = block_tags_among(&names);
    if out.len() == 0 {
        return Err(whole_jar_error(JarErrorKind::NoBlockTags));
    }
    Ok(out)
}

/// Reading the block tag files in order: each one's relative path and its
/// bytes (empty where the archive has no such entry), or the first entry
/// that cannot be read.
pub open spec fn read_tags(archive: Seq<u8>, entries: Seq<(Seq<char>, Seq<char>)>) -> Result<Seq<(Seq<char>, Seq<u8>)>, (JarErrorKind, Seq<char>)>
    decreases entries.len(),
{
    if entries.len() == 0 {
        Ok(Seq::empty())
    } else {
        match read_tags(archive, entries.drop_last()) {
            Err(e) => Err(e),
            Ok(done) => match zip_entry_of(archive, entries.last().0) {
                None => Err((JarErrorKind::Unreadable, entries.last().0)),
                Some(None) => Ok(done.push((entries.last().1, Seq::empty()))),
                Some(Some(b)) => Ok(done.push((entries.last().1, b))),
            },
        }
    }
}

/// Once reading a prefix of the entries fails, reading them all fails the same way.
proof fn lemma_read_tags_failed(archive: Seq<u8>, entries: Seq<(Seq<char>, Seq<char>)>, k: int)
    requires
        0 <= k <= entries.len(),
        read_tags(archive, entries.take(k)) is Err,
    ensures
        read_tags(archive, entries) == read_tags(archive, entries.take(k)),
    decreases entries.len() - k,
{
    if k < entries.len() {
        assert(entries.take(k + 1).drop_last() =~= entries.take(k));
        lemma_read_tags_failed(archive, entries, k + 1);
    } else {
        assert(entries.take(k) =~= entries);
    }
}

/// What a tag file holds: the bytes of its entry, or nothing where the
/// archive has no such entry.
pub open spec fn entry_bytes(read: Option<Option<Seq<u8>>>) -> Seq<u8> {
    match read {
        Some(Some(b)) => b,
        _ => Seq::empty(),
    }
}

/// Reading the block tag files, where it succeeds, gives one file per tag
/// entry, in order: the entry's relative path and the bytes the archive
/// holds for that entry.
pub proof fn law_tag_files_are_the_entries(archive: Seq<u8>, entries: Seq<(Seq<char>, Seq<char>)>)
    requires
        read_tags(archive, entries) is Ok,
    ensures
        read_tags(archive, entries)->Ok_0.len() == entries.len(),
        forall|i: int|
            0 <= i < entries.len() ==> #[trigger] read_tags(archive, entries)->Ok_0[i] == (
                entries[i].1,
                entry_bytes(zip_entry_of(archive, entries[i].0)),
            ),
    decreases entries.len(),
{
    if entries.len() > 0 {
        let rest = entries.drop_last();
        law_tag_files_are_the_entries(archive, rest);
        let done = read_tags(archive, rest)->Ok_0;
        assert forall|i: int| 0 <= i < entries.len() implies #[trigger] read_tags(archive, entries)->Ok_0[i] == (
            entries[i].1,
            entry_bytes(zip_entry_of(archive, entries[i].0)),
        ) by {
            if i < entries.len() - 1 {
                assert(rest[i] == entries[i]);
                assert(done[i] == read_tags(archive, entries)->Ok_0[i]);
            }
        }
    }
}

/// A jar without `META-INF/versions.list` is read directly: it is its own
/// data archive and not a bundler.
pub proof fn law_plain_jars_are_read_directly(jar: Seq<u8>)
    requires
        zip_opens(jar),
        zip_entry_of(jar, versions_list_entry()) == Some(None::<Seq<u8>>),
    ensures
        data_archive_of(jar) == Ok::<(Seq<u8>, bool), (JarErrorKind, Seq<char>)>((jar, false)),
{
}

/// A bundler is read through the jar that the first line of its versions
/// list names, where that jar is bundled and opens.
pub proof fn law_bundlers_are_read_through_the_named_jar(jar: Seq<u8>, list: Seq<u8>, inner: Seq<u8>)
    requires
        zip_opens(jar),
        zip_entry_of(jar, versions_list_entry()) == Some(Some(list)),
        vstd::utf8::valid_utf8(list),
        first_line(vstd::utf8::decode_utf8(list)) matches Some(line) && last_word(line) matches Some(w)
            && zip_entry_of(jar, "META-INF/versions/"@ + w) == Some(Some(inner)),
        zip_opens(inner),
    ensures
        data_archive_of(jar) == Ok::<(Seq<u8>, bool), (JarErrorKind, Seq<char>)>((inner, true)),
{
}

/// The block tag files of a data archive.
pub open spec fn tag_files_of(archive: Seq<u8>) -> Result<Seq<(Seq<char>, Seq<u8>)>, (JarErrorKind, Seq<char>)> {
    match zip_names_of(archive) {
        None => Err((JarErrorKind::Unreadable, Seq::empty())),
        Some(names) => if tag_entries(names).len() == 0 {
            Err((JarErrorKind::NoBlockTags, Seq::empty()))
        } else {
            read_tags(archive, tag_entries(names))
        },
    }
}

/// What reading the tag files gave, by value.
pub open spec fn files_view(r: Result<Vec<(String, Vec<u8>)>, JarError>) -> Result<Seq<(Seq<char>, Seq<u8>)>, (JarErrorKind, Seq<char>)> {
    match r {
        Ok(v) => Ok(v@.map_values(|p: (String, Vec<u8>)| (p.0@, p.1@))),
        Err(e) => Err(e@),
    }
}

/// Every block tag file of a data archive, in archive order, as its path
/// relative to the tag directory (subdirectories such as `mineable/` kept)
/// and its bytes.
pub fn tag_files(archive: &[u8]) -> (r: Result<Vec<(String, Vec<u8>)>, JarError>)
    ensures
        files_view(r) == tag_files_of(archive@),
{
    let entries = match block_tag_entries(archive) {
        Err(e) => return Err(e),
        Ok(entries) => entries,
    };
    let ghost names = zip_names_of(archive@)->0;
    let ghost all = pairs_view(entries@);
    assert(zip_names_of(archive@) == Some(names) && tag_entries(names) == all);
    let mut out: Vec<(String, Vec<u8>)> = Vec::new();
    let mut i: usize = 0;
    assert(all.take(0) =~= Seq::<(Seq<char>, Seq<char>)>::empty());
    assert(out@.map_values(|p: (String, Vec<u8>)| (p.0@, p.1@)) =~= Seq::<(Seq<char>, Seq<u8>)>::empty());
    while i < entries.len()
        invariant
            i <= entries@.len(),
            all == pairs_view(entries@),
            zip_names_of(archive@) == Some(names),
            tag_entries(names) == all,
            all.len() > 0,
            read_tags(archive@, all.take(i as int)) == Ok::<Seq<(Seq<char>, Seq<u8>)>, (JarErrorKind, Seq<char>)>(
                out@.map_values(|p: (String, Vec<u8>)| (p.0@, p.1@)),
            ),
        decreases entries@.len() - i,
    {
        assert(all.take(i + 1).drop_last() =~= all.take(i as int));
        assert(all.take(i + 1).last() == all[i as int]);
        let ghost before = out@.map_values(|p: (String, Vec<u8>)| (p.0@, p.1@));
        let bytes = match zip_entry(archive, entries[i].0.as_str()) {
            Err(e) => {
                proof {
                    assert(read_tags(archive@, all.take(i + 1)) == Err::<Seq<(Seq<char>, Seq<u8>)>, (JarErrorKind, Seq<char>)>(
                        (JarErrorKind::Unreadable, all[i as int].0),
                    ));
                    lemma_read_tags_failed(archive@, all, i + 1);
                }
                return Err(e);
            },
            Ok(Some(bytes)) => bytes,
            Ok(None) => Vec::new(),
        };
        out.push((entries[i].1.clone(), bytes));
        assert(out@.map_values(|p: (String, Vec<u8>)| (p.0@, p.1@)) =~= before.push((all[i as int].1, bytes@)));
        i += 1;
    }
    assert(all.take(i as int) =~= all);
    Ok(out)
}

} // verus!
