//! Path safety and static-file response assembly.  Reading from the
//! filesystem is left to the embedding program, which passes file contents
//! in as bytes.

use vstd::prelude::*;
use vstd::string::StringSliceAdditionalSpecFns;

use crate::bytes::{contains, contains_byte, contains_sub, has_byte};
use crate::response::{mime_type, spec_mime, Response};
use crate::route::spec_join;
use crate::status::StatusCode;

verus! {

/// A path is safe when it has no parent-directory reference and no NUL
/// byte.
pub open spec fn spec_safe_path(p: Seq<u8>) -> bool {
    !contains_sub(p, seq![46u8, 46u8]) && !contains_byte(p, 0)
}

/// Static-file helpers.
pub struct StaticFiles;

/// What a filesystem probe of a path reported: the embedding program
/// fills one in from the file metadata it read.
#[derive(Debug, Clone, Copy, PartialEq, Eq, Structural)]
pub struct FileInfo {
    /// Size in bytes.
    pub size: u64,
    /// Whether the path is a directory.
    pub is_dir: bool,
    /// Whether the path is a regular file.
    pub is_file: bool,
}

/// The next step in serving a resolved path, decided from probe results.
pub enum StaticStep {
    /// Serve the directory's index file at the joined path.
    ServeIndex { fs_path: Vec<u8> },
    /// Serve the file at the resolved path.
    ServeFile,
    /// Generate the directory listing.
    Listing,
    /// Answer with an error status.
    Error { code: u16 },
}

/// The abstract form of a static-serving step.
pub enum StaticPlan {
    ServeIndex { fs_path: Seq<u8> },
    ServeFile,
    Listing,
    Error { code: u16 },
}

impl View for StaticStep {
    type V = StaticPlan;

    open spec fn view(&self) -> StaticPlan {
        match self {
            StaticStep::ServeIndex { fs_path } => StaticPlan::ServeIndex { fs_path: fs_path@ },
            StaticStep::ServeFile => StaticPlan::ServeFile,
            StaticStep::Listing => StaticPlan::Listing,
            StaticStep::Error { code } => StaticPlan::Error { code: *code },
        }
    }
}

/// The static-serving decision: a missing target is 404; a directory
/// serves its index file when one exists, else its listing when the
/// auto-index is on, else 403; anything that is not a regular file is
/// 404; a regular file is served.
pub open spec fn spec_static_plan(
    fs_path: Seq<u8>,
    autoindex: bool,
    index: Option<Seq<u8>>,
    info: Option<FileInfo>,
    index_info: Option<FileInfo>,
) -> StaticPlan {
    match info {
        None => StaticPlan::Error { code: 404 },
        Some(fi) => if fi.is_dir {
            match (index, index_info) {
                (Some(ix), Some(ii)) => if ii.is_file {
                    StaticPlan::ServeIndex { fs_path: fs_path + seq![47u8] + ix }
                } else if autoindex {
                    StaticPlan::Listing
                } else {
                    StaticPlan::Error { code: 403 }
                },
                _ => if autoindex {
                    StaticPlan::Listing
                } else {
                    StaticPlan::Error { code: 403 }
                },
            }
        } else if !fi.is_file {
            StaticPlan::Error { code: 404 }
        } else {
            StaticPlan::ServeFile
        },
    }
}

/// The deletion decision from a probe: a missing target is 404, a
/// directory is refused with 403, a file may be removed.
pub open spec fn spec_delete_plan(info: Option<FileInfo>) -> u16 {
    match info {
        None => 404,
        Some(fi) => if fi.is_dir {
            403
        } else {
            0
        },
    }
}

impl StaticFiles {
    /// Whether a path is safe to touch: no `..`, no NUL.
    pub fn is_safe_path(path: &[u8]) -> (r: bool)
        ensures
            r == spec_safe_path(path@),
    {
        let mut dots: Vec<u8> = Vec::new();
        dots.push(46);
        dots.push(46);
        proof {
            assert(dots@ =~= seq![46u8, 46u8]);
        }
        if contains(path, dots.as_slice()) {
            return false;
        }
        if has_byte(path, 0) {
            return false;
        }
        true
    }

    /// Joins a server root and a request path into a filesystem path.
    pub fn resolve_path(root: &[u8], request_path: &[u8]) -> (r: Vec<u8>)
        ensures
            r@ == spec_join(root@, request_path@),
    {
        let clean = crate::bytes::trim_leading(request_path, 47);
        if clean.len() == 0 {
            crate::bytes::to_vec(root)
        } else {
            let mut out = crate::bytes::to_vec(root);
            out.push(47);
            out.extend_from_slice(clean.as_slice());
            proof {
                assert(out@ =~= root@ + seq![47u8] + crate::bytes::spec_trim_leading(
                    request_path@,
                    47,
                ));
            }
            out
        }
    }

    /// Decides how a resolved path is served, from the probes the
    /// embedding program made: the path's own metadata, and the index
    /// file's when the path is a directory.
    pub fn static_plan(
        fs_path: &[u8],
        autoindex: bool,
        index: Option<&Vec<u8>>,
        info: Option<&FileInfo>,
        index_info: Option<&FileInfo>,
    ) -> (r: StaticStep)
        ensures
            r@ == spec_static_plan(
                fs_path@,
                autoindex,
                match index {
                    Some(ix) => Some(ix@),
                    None => None,
                },
                match info {
                    Some(fi) => Some(*fi),
                    None => None,
                },
                match index_info {
                    Some(ii) => Some(*ii),
                    None => None,
                },
            ),
    {
        let fi = match info {
            None => {
                return StaticStep::Error { code: 404 };
            },
            Some(fi) => fi,
        };
        if fi.is_dir {
            match (index, index_info) {
                (Some(ix), Some(ii)) => {
                    if ii.is_file {
                        let mut joined = crate::bytes::to_vec(fs_path);
                        joined.push(47);
                        joined.extend_from_slice(ix.as_slice());
                        proof {
                            assert(joined@ =~= fs_path@ + seq![47u8] + ix@);
                        }
                        return StaticStep::ServeIndex { fs_path: joined };
                    }
                },
                _ => {},
            }
            if autoindex {
                StaticStep::Listing
            } else {
                StaticStep::Error { code: 403 }
            }
        } else if !fi.is_file {
            StaticStep::Error { code: 404 }
        } else {
            StaticStep::ServeFile
        }
    }

    /// Decides a deletion from the probe the embedding program made: the
    /// error status to answer with, or zero when the file may be removed.
    pub fn delete_plan(info: Option<&FileInfo>) -> (r: u16)
        ensures
            r == spec_delete_plan(
                match info {
                    Some(fi) => Some(*fi),
                    None => None,
                },
            ),
    {
        match info {
            None => 404,
            Some(fi) => {
                if fi.is_dir {
                    403
                } else {
                    0
                }
            },
        }
    }

    /// The 200 response serving a file's contents, typed by the path's
    /// extension.
    pub fn file_response(path: &[u8], contents: Vec<u8>) -> (r: Response)
        ensures
            r.status == StatusCode::Okay,
            crate::headers::spec_get(r.headers@, "content-type".spec_bytes()) == Some(
                spec_mime(path@),
            ),
            r.body@ == contents@,
            crate::headers::spec_content_length(r.headers@) == Some(contents@.len() as int),
            r.headers.wf(),
    {
        proof {
            crate::response::lemma_response_tokens();
            crate::headers::lemma_get_set_other(
                crate::response::fresh_headers(),
                "content-type".spec_bytes(),
                spec_mime(path@),
                "content-length".spec_bytes(),
            );
        }
        let mime = mime_type(path);
        let resp = Response::ok().content_type(mime.as_bytes());
        proof {
            crate::headers::lemma_get_set_other(
                resp.headers@,
                "content-length".spec_bytes(),
                crate::bytes::dec_str(contents@.len()),
                "content-type".spec_bytes(),
            );
        }
        resp.body(contents)
    }
}

} // verus!
