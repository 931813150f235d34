//! A plain-value model of the file system, fed to the analysis.
//!
//! The snapshot lists every file and directory the analysis may probe,
//! under normalized paths, together with the parsed syntax shape of each
//! source file. All resolution decisions are taken against this model.

use vstd::prelude::*;

verus! {

use crate::strutil::{str_views, contains_string, str_eq, parent_spec, file_name_spec,
    ext_of_name_spec, parent_of, file_name_of, ext_of_name};
use crate::analyzer::AstNode;

/// The files and directories the analysis can see.
#[derive(Debug)]
pub struct FsSnapshot {
    /// Existing regular files, as normalized paths.
    pub files: Vec<String>,
    /// Existing directories, as normalized paths.
    pub dirs: Vec<String>,
}

impl FsSnapshot {
    /// A file exists at `p`.
    pub open spec fn has_file(self, p: Seq<char>) -> bool {
        str_views(self.files@).contains(p)
    }

    /// A directory exists at `p`.
    pub open spec fn has_dir(self, p: Seq<char>) -> bool {
        str_views(self.dirs@).contains(p)
    }

    /// Something exists at `p`.
    pub open spec fn path_exists(self, p: Seq<char>) -> bool {
        self.has_file(p) || self.has_dir(p)
    }

    /// Whether a file exists at `p`.
    pub fn is_file(&self, p: &str) -> (r: bool)
        ensures
            r == self.has_file(p@),
    {
        contains_string(&self.files, p)
    }

    /// Whether a directory exists at `p`.
    pub fn is_dir(&self, p: &str) -> (r: bool)
        ensures
            r == self.has_dir(p@),
    {
        contains_string(&self.dirs, p)
    }

    /// Whether anything exists at `p`.
    pub fn exists_path(&self, p: &str) -> (r: bool)
        ensures
            r == self.path_exists(p@),
    {
        self.is_file(p) || self.is_dir(p)
    }

    /// The files directly inside `dir` whose extension is `ext`, in
    /// snapshot order.
    pub fn files_in_dir_with_ext(&self, dir: &str, ext: &str) -> (r: Vec<String>)
        ensures
            str_views(r@) == str_views(self.files@).filter(
                |f: Seq<char>| parent_spec(f) == dir@ && ext_of_name_spec(file_name_spec(f))
                    == Some(ext@),
            ),
    {
        let ghost fv = str_views(self.files@);
        let ghost pred = |f: Seq<char>|
            parent_spec(f) == dir@ && ext_of_name_spec(file_name_spec(f)) == Some(ext@);
        let mut out: Vec<String> = Vec::new();
        let mut i: usize = 0;
        proof {
            reveal(Seq::filter);
            assert(fv.take(0) =~= Seq::<Seq<char>>::empty());
            assert(str_views(out@) =~= fv.take(0).filter(pred));
        }
        while i < self.files.len()
            invariant
                fv == str_views(self.files@),
                pred == (|f: Seq<char>|
                    parent_spec(f) == dir@ && ext_of_name_spec(file_name_spec(f)) == Some(ext@)),
                0 <= i <= fv.len(),
                str_views(out@) == fv.take(i as int).filter(pred),
            decreases fv.len() - i,
        {
            proof {
                reveal(Seq::filter);
                assert(fv.take(i + 1).drop_last() =~= fv.take(i as int));
                assert(fv.take(i + 1).last() == fv[i as int]);
                assert(fv[i as int] == self.files@[i as int]@);
            }
            let f = &self.files[i];
            let par = parent_of(f.as_str());
            let name = file_name_of(f.as_str());
            let matches_dir = str_eq(par.as_str(), dir);
            let matches_ext = match ext_of_name(name.as_str()) {
                Some(e) => str_eq(e.as_str(), ext),
                None => false,
            };
            if matches_dir && matches_ext {
                let ghost before = str_views(out@);
                out.push(f.clone());
                proof {
                    assert(str_views(out@) =~= before.push(fv[i as int]));
                    assert(pred(fv[i as int]));
                }
            } else {
                proof {
                    assert(!pred(fv[i as int]));
                }
            }
            i += 1;
        }
        proof {
            assert(fv.take(fv.len() as int) =~= fv);
        }
        out
    }
}

/// First-match lookup of the parsed shape of `k`.
pub open spec fn lookup_ast(entries: Seq<(String, Vec<AstNode>)>, k: Seq<char>) -> Option<
    Seq<AstNode>,
>
    decreases entries.len(),
{
    if entries.len() == 0 {
        None
    } else if entries[0].0@ == k {
        Some(entries[0].1@)
    } else {
        lookup_ast(entries.drop_first(), k)
    }
}

/// The whole analysed input: the file system and the parsed source files.
#[derive(Debug)]
pub struct SourceModel {
    pub fs: FsSnapshot,
    /// Parsed source files by path. A file that failed to parse has no
    /// entry and contributes no facts.
    pub parsed: Vec<(String, Vec<AstNode>)>,
}

impl SourceModel {
    /// Every parsed path names an existing file.
    pub open spec fn wf(self) -> bool {
        forall|j: int|
            0 <= j < self.parsed@.len() ==> self.fs.has_file((#[trigger] self.parsed@[j]).0@)
    }

    /// Whether every parsed path names an existing file; callers can test
    /// the model before handing it to the analysis.
    pub fn check_wf(&self) -> (r: bool)
        ensures
            r == self.wf(),
    {
        let mut j: usize = 0;
        while j < self.parsed.len()
            invariant
                0 <= j <= self.parsed@.len(),
                forall|k: int|
                    0 <= k < j ==> self.fs.has_file((#[trigger] self.parsed@[k]).0@),
            decreases self.parsed@.len() - j,
        {
            if !self.fs.is_file(self.parsed[j].0.as_str()) {
                return false;
            }
            j += 1;
        }
        true
    }

    /// The parsed shape of the file at `path`, when the file parsed.
    pub fn nodes_for(&self, path: &str) -> (r: Option<&Vec<AstNode>>)
        ensures
            match r {
                Some(v) => lookup_ast(self.parsed@, path@) == Some(v@),
                None => lookup_ast(self.parsed@, path@) is None,
            },
    {
        let ghost es = self.parsed@;
        let mut i: usize = 0;
        proof {
            assert(es.skip(0) =~= es);
        }
        while i < self.parsed.len()
            invariant
                es == self.parsed@,
                0 <= i <= es.len(),
                lookup_ast(es, path@) == lookup_ast(es.skip(i as int), path@),
            decreases es.len() - i,
        {
            proof {
                assert(es.skip(i as int)[0] == es[i as int]);
                assert(es.skip(i as int).drop_first() =~= es.skip(i + 1));
            }
            if str_eq(self.parsed[i].0.as_str(), path) {
                return Some(&self.parsed[i].1);
            }
            i += 1;
        }
        proof {
            assert(es.skip(es.len() as int) =~= Seq::<(String, Vec<AstNode>)>::empty());
        }
        None
    }

}

} // verus!
