//! Decisions of the macOS sampler: thread selection and the list of images
//! loaded in the target.

use vstd::prelude::*;

pub mod aarch64;
pub mod x86_64;

use crate::sampler::{contains_seq, copy_images, str_contains, LoadedImage, ThreadFilter};
use crate::symbolicate::{image_view, image_views};

verus! {

/// Whether a thread passes `filter`, given its Mach port, its id, its name
/// and its position among the threads considered.
pub open spec fn mach_thread_passes(
    filter: ThreadFilter,
    thread: u32,
    thread_id: u64,
    name: Seq<char>,
    index: nat,
) -> bool {
    match filter {
        ThreadFilter::All => true,
        ThreadFilter::MainThread => index == 0,
        ThreadFilter::ByName(n) => contains_seq(name, n@),
        ThreadFilter::ById(id) => thread_id == id,
        ThreadFilter::ByMachThread(port) => thread == port,
    }
}

/// Whether the thread with Mach port `thread`, id `thread_id` and name
/// `name`, at position `index` of the task's thread list, passes `filter`.
pub fn thread_matches_filter(filter: &ThreadFilter, thread: u32, thread_id: u64, name: &str, index: usize) -> (r: bool)
    ensures
        r == mach_thread_passes(*filter, thread, thread_id, name@, index as nat),
{
    match filter {
        ThreadFilter::All => true,
        ThreadFilter::MainThread => index == 0,
        ThreadFilter::ByName(n) => str_contains(name, n.as_str()),
        ThreadFilter::ById(id) => thread_id == *id,
        ThreadFilter::ByMachThread(port) => thread == *port,
    }
}

/// The final component of a path as `std::path::Path::file_name` gives it.
pub uninterp spec fn path_file_name(path: Seq<char>) -> Option<Seq<char>>;

/// `std::path::Path::file_name`, converted to a `String`; the result depends
/// on the path alone and is named `path_file_name`.
#[verifier::external_body]
fn file_name(path: &str) -> (r: Option<String>)
    ensures
        match r {
            Some(s) => path_file_name(path@) == Some(s@),
            None => path_file_name(path@) is None,
        },
{
    std::path::Path::new(path).file_name().map(|name| name.to_string_lossy().into_owned())
}

/// The path recorded for an image: an absolute path is kept; a relative one
/// whose file name is the executable's becomes the executable's path.
pub open spec fn image_path_of(path: Seq<char>, executable: Option<Seq<char>>) -> Seq<char> {
    if path.len() > 0 && path[0] == '/' {
        path
    } else {
        match executable {
            Some(e) => if path_file_name(path) == path_file_name(e) {
                e
            } else {
                path
            },
            None => path,
        }
    }
}

/// Resolves a dyld image path: the main image may be listed relative to the
/// launch directory, in which case the process's executable path is used.
pub fn resolve_image_path(path: &str, executable_path: Option<&str>) -> (r: String)
    ensures
        r@ == image_path_of(
            path@,
            match executable_path {
                Some(e) => Some(e@),
                None => None,
            },
        ),
{
    let absolute = crate::text::starts_with(path, "/");
    proof {
        reveal_strlit("/");
        if absolute {
            assert(path@.take(1)[0] == path@[0]);
        }
        if path@.len() > 0 && path@[0] == '/' {
            assert(path@.take(1) =~= "/"@);
        }
    }
    if absolute {
        return path.to_owned();
    }
    match executable_path {
        Some(executable) => {
            let same = match (file_name(path), file_name(executable)) {
                (Some(a), Some(b)) => {
                    proof {
                        crate::text::lemma_chars_order(a@, b@);
                    }
                    crate::text::compare_str(a.as_str(), b.as_str()) == 0
                },
                (None, None) => true,
                _ => false,
            };
            if same {
                executable.to_owned()
            } else {
                path.to_owned()
            }
        },
        None => path.to_owned(),
    }
}

/// The image list with dyld itself added: dyld's own image is listed
/// separately (from version 2 of `dyld_all_image_infos`) and is appended when
/// known and not already listed.
pub fn append_dyld_loader_image(images: &mut Vec<LoadedImage>, version: u32, load_address: u64)
    ensures
        (version < 2 || load_address == 0 || exists|i: int| 0 <= i < old(images)@.len() && #[trigger] old(images)@[i].load_address == load_address)
            ==> final(images)@ == old(images)@,
        !(version < 2 || load_address == 0 || exists|i: int| 0 <= i < old(images)@.len() && #[trigger] old(images)@[i].load_address == load_address)
            ==> (final(images)@.len() == old(images)@.len() + 1
                && final(images)@.take(old(images)@.len() as int) == old(images)@
                && final(images)@.last().load_address == load_address
                && final(images)@.last().path@ == "/usr/lib/dyld"@),
{
    if version < 2 || load_address == 0 {
        return;
    }
    let mut i: usize = 0;
    while i < images.len()
        invariant
            i <= images@.len(),
            images@ == old(images)@,
            forall|j: int| 0 <= j < i ==> images@[j].load_address != load_address,
        decreases images@.len() - i,
    {
        if images[i].load_address == load_address {
            return;
        }
        i = i + 1;
    }
    proof {
        reveal_strlit("/usr/lib/dyld");
    }
    let ghost before = images@;
    images.push(LoadedImage { load_address, path: <String as vstd::string::StringExecFns>::from_str("/usr/lib/dyld") });
    assert(images@.take(before.len() as int) =~= before);
}

/// The images to keep after a refresh: the refreshed list, unless it came
/// back empty (then the last observed list is kept).
pub fn prefer_loaded_images(existing: Vec<LoadedImage>, refreshed: Vec<LoadedImage>) -> (r: Vec<LoadedImage>)
    ensures
        refreshed@.len() == 0 ==> r@ == existing@,
        refreshed@.len() > 0 ==> r@ == refreshed@,
{
    if refreshed.len() == 0 {
        existing
    } else {
        refreshed
    }
}

} // verus!
