use std::path::PathBuf;
use vstd::prelude::*;
use vstd::string::*;
use vstd::utf8::encode_utf8;

verus! {

#[verifier::external_type_specification]
#[verifier::external_body]
pub struct ExPathBuf(PathBuf);

/// Why a name was refused as an image file name.
#[derive(Debug, Clone, Copy, PartialEq, Eq, Structural)]
pub enum Error {
    /// The name holds a `/`, so it names something inside a directory.
    HasParent,
    /// The name holds no `.`, or ends with one, so it has no extension.
    InvalidExtension,
}

/// The error that `Filename::new_with_extension` gives for `name`, if any.
pub open spec fn name_error(name: Seq<char>) -> Option<Error> {
    if name.contains('/') {
        Some(Error::HasParent)
    } else if !name.contains('.') || name.last() == '.' {
        Some(Error::InvalidExtension)
    } else {
        None
    }
}

/// `ext` is what follows the last `.` of `name`, and it is not empty.
pub open spec fn is_extension_of(ext: Seq<char>, name: Seq<char>) -> bool {
    &&& 0 < ext.len() < name.len()
    &&& name[name.len() - ext.len() - 1] == '.'
    &&& name.subrange(name.len() - ext.len(), name.len() as int) == ext
    &&& !ext.contains('.')
}

/// `name` is a single path component that names an entry of a directory:
/// not empty, without a separator, and neither `.` nor `..`.
pub open spec fn is_file_component(name: Seq<char>) -> bool {
    &&& name.len() > 0
    &&& !name.contains('/')
    &&& name != seq!['.']
    &&& name != seq!['.', '.']
}

/// `name` is one file component on every platform: besides being a file
/// component, it holds neither `\`, which Windows also takes as a
/// separator, nor `:`, with which Windows writes a drive prefix.
pub open spec fn is_portable_component(name: Seq<char>) -> bool {
    &&& is_file_component(name)
    &&& !name.contains('\\')
    &&& !name.contains(':')
}

/// The name of an image file: always a file component, never a directory.
#[derive(Debug)]
pub struct Filename {
    name: String,
}

impl Filename {
    #[verifier::type_invariant]
    spec fn names_a_file(self) -> bool {
        is_file_component(self.name@)
    }
}

impl View for Filename {
    type V = Seq<char>;

    closed spec fn view(&self) -> Seq<char> {
        self.name@
    }
}

impl Filename {
    /// Takes `str` as a file name without checking its extension. The caller
    /// owes that `str` is a file component: not empty, without `/`, neither
    /// `.` nor `..`.
    pub fn unchecked_from_str(str: &str) -> (f: Filename)
        requires
            is_file_component(str@),
        ensures
            f@ == str@,
    {
        Filename { name: str.to_owned() }
    }

    /// Checks that `filename` has no parent directory and ends in a
    /// non-empty extension, and returns it with that extension.
    pub fn new_with_extension<'a>(filename: &'a str) -> (res: Result<(Filename, &'a str), Error>)
        ensures
            res is Ok <==> name_error(filename@) is None,
            res matches Err(e) ==> name_error(filename@) == Some(e),
            res matches Ok((f, ext)) ==> f@ == filename@ && is_extension_of(ext@, filename@),
            filename@.contains('/') ==> res matches Err(Error::HasParent),
    {
        let n = filename.unicode_len();
        let mut i: usize = 0;
        let mut last_dot: Option<usize> = None;
        for c in it: filename.chars()
            invariant
                n == filename@.len(),
                it.seq() == filename@,
                i == it.index(),
                forall|j: int| 0 <= j < i ==> filename@[j] != '/',
                match last_dot {
                    None => forall|j: int| 0 <= j < i ==> filename@[j] != '.',
                    Some(d) => {
                        &&& d < i
                        &&& filename@[d as int] == '.'
                        &&& forall|j: int| d < j < i ==> filename@[j] != '.'
                    },
                },
        {
            if c == '/' {
                assert(filename@.contains('/'));
                return Err(Error::HasParent);
            }
            if c == '.' {
                last_dot = Some(i);
            }
            i = i + 1;
        }
        assert(!filename@.contains('/'));
        match last_dot {
            None => {
                assert(!filename@.contains('.'));
                Err(Error::InvalidExtension)
            },
            Some(d) => {
                if d == n - 1 {
                    Err(Error::InvalidExtension)
                } else {
                    let ext = filename.substring_char(d + 1, n);
                    assert(filename@.contains('.'));
                    assert(!ext@.contains('.')) by {
                        if ext@.contains('.') {
                            let k = choose|k: int| 0 <= k < ext@.len() && ext@[k] == '.';
                            assert(filename@[d + 1 + k] == '.');
                        }
                    }
                    proof {
                        lemma_accepted_name_is_file_component(filename@);
                    }
                    Ok((Filename { name: filename.to_owned() }, ext))
                }
            },
        }
    }

    /// The name as a string slice.
    pub fn as_str(&self) -> (s: &str)
        ensures
            s@ == self@,
            is_file_component(s@),
    {
        proof {
            use_type_invariant(self);
        }
        self.name.as_str()
    }

    /// The name as an owned string, as it is displayed.
    pub fn to_string(&self) -> (s: String)
        ensures
            s@ == self@,
    {
        self.name.clone()
    }
}

impl PartialEq<&str> for Filename {
    fn eq(&self, other: &&str) -> (r: bool) {
        let o: String = (*other).to_owned();
        self.name == o
    }
}

impl vstd::std_specs::cmp::PartialEqSpecImpl<&str> for Filename {
    open spec fn obeys_eq_spec() -> bool {
        true
    }

    open spec fn eq_spec(&self, other: &&str) -> bool {
        self@ == other@
    }
}

/// A path to an image file: a directory and, inside it, a file name. The path
/// is never a directory: its file name is always a file component.
pub struct ImagePathBuf {
    dir: PathBuf,
    file_name: String,
}

impl ImagePathBuf {
    #[verifier::type_invariant]
    spec fn names_a_file(self) -> bool {
        is_file_component(self.file_name@)
    }
}

/// What a path holds: its components, as `Path::components` yields them,
/// each as the bytes that `OsStr::as_encoded_bytes` gives of its
/// `as_os_str` (for valid Unicode, its UTF-8 bytes, on every platform).
pub uninterp spec fn path_components(path: PathBuf) -> Seq<Seq<u8>>;

/// Joins `name` to `dir` with `Path::join`. Where `name` is one file
/// component on every platform (not empty, without `/`, `\` or `:`, neither
/// `.` nor `..`), the documentation of `Path::join`, `PathBuf::push` and
/// `Path::components` gives that the components of the result are those of
/// `dir` followed by `name`. Of other names nothing is stated: how they are
/// parsed as a path depends on the platform.
#[verifier::external_body]
fn join_path(dir: &PathBuf, name: &str) -> (p: PathBuf)
    ensures
        is_portable_component(name@) ==> path_components(p) == path_components(*dir).push(
            name.spec_bytes(),
        ),
{
    dir.join(name)
}

impl ImagePathBuf {
    /// The directory that holds the file.
    pub closed spec fn dir(&self) -> PathBuf {
        self.dir
    }

    /// The last component of the path: the file name.
    pub closed spec fn file_name_view(&self) -> Seq<char> {
        self.file_name@
    }

    /// The path of `filename` inside `parent`.
    pub fn new(parent: PathBuf, filename: &Filename) -> (p: Self)
        ensures
            p.dir() == parent,
            p.file_name_view() == filename@,
            is_file_component(p.file_name_view()),
    {
        proof {
            use_type_invariant(filename);
        }
        ImagePathBuf { dir: parent, file_name: filename.to_string() }
    }

    /// The directory that holds the file.
    pub fn parent_dir(&self) -> (d: &PathBuf)
        ensures
            *d == self.dir(),
    {
        &self.dir
    }

    /// The file name, the last component of the path.
    pub fn file_name(&self) -> (s: &str)
        ensures
            s@ == self.file_name_view(),
            is_file_component(s@),
    {
        proof {
            use_type_invariant(self);
        }
        self.file_name.as_str()
    }

    /// The whole path: the directory joined with the file name. Where the
    /// file name holds neither `\` nor `:`, the path's components are the
    /// directory's followed by the file name.
    pub fn to_path_buf(&self) -> (p: PathBuf)
        ensures
            is_portable_component(self.file_name_view()) ==> path_components(p) == path_components(
                self.dir(),
            ).push(encode_utf8(self.file_name_view())),
    {
        join_path(&self.dir, self.file_name.as_str())
    }
}

/// A name that `Filename::new_with_extension` accepts names a file, not a
/// directory: it is one non-empty component, neither `.` nor `..`.
pub proof fn lemma_accepted_name_is_file_component(name: Seq<char>)
    requires
        name_error(name) is None,
    ensures
        is_file_component(name),
{
    let dot = seq!['.'];
    let dots = seq!['.', '.'];
    assert(name.contains('.'));
    if name == dot {
        assert(name.last() == '.');
    }
    if name == dots {
        assert(name.last() == '.');
    }
}

/// A name has at most one extension: what follows its last `.`.
pub proof fn lemma_extension_is_unique(name: Seq<char>, e1: Seq<char>, e2: Seq<char>)
    requires
        is_extension_of(e1, name),
        is_extension_of(e2, name),
    ensures
        e1 == e2,
{
    let n = name.len();
    if e1.len() < e2.len() {
        let k = e2.len() - e1.len() - 1;
        assert(e2[k] == name[n - e2.len() + k]);
        assert(e2.contains('.'));
    } else if e2.len() < e1.len() {
        let k = e1.len() - e2.len() - 1;
        assert(e1[k] == name[n - e1.len() + k]);
        assert(e1.contains('.'));
    }
    assert(e1 =~= e2);
}

/// A stem without `/`, a `.` and a non-empty extension without `/` or `.`
/// make a name that `Filename::new_with_extension` accepts, and the
/// extension it gives back is that extension.
pub proof fn lemma_stem_dot_extension(stem: Seq<char>, ext: Seq<char>)
    requires
        !stem.contains('/'),
        ext.len() > 0,
        !ext.contains('/'),
        !ext.contains('.'),
    ensures
        name_error(stem + seq!['.'] + ext) is None,
        is_extension_of(ext, stem + seq!['.'] + ext),
{
    let name = stem + seq!['.'] + ext;
    let n = name.len();
    assert(name[stem.len() as int] == '.');
    assert(name.contains('.'));
    assert(name.last() == ext.last());
    assert(ext.contains(ext.last()));
    if name.contains('/') {
        let k = choose|k: int| 0 <= k < n && name[k] == '/';
        if k < stem.len() {
            assert(stem[k] == '/');
        } else {
            assert(ext[k - stem.len() - 1] == '/');
        }
    }
    assert(name.subrange(n - ext.len(), n as int) =~= ext);
}

/// Every name that holds a `/` is refused as having a parent directory,
/// whatever dots it holds; a name without `/` is never refused so.
pub proof fn lemma_slash_means_parent(name: Seq<char>)
    ensures
        name.contains('/') <==> name_error(name) == Some(Error::HasParent),
{
}

} // verus!
