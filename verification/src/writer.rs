//! The writer side's decisions: which backend a path selects and when an
//! fsync is owed.

use vstd::prelude::*;
use crate::dialect::SyncOnClose;

verus! {

/// Where the output goes. Only a local file supports fsync; a cloud object
/// writer finalises a multipart upload on close instead.
#[derive(Clone, Copy, PartialEq, Eq, Structural, Debug)]
pub enum Backend {
    Local,
    Cloud,
}

/// `p` is an initial run of `s`.
pub open spec fn starts_with(s: Seq<u8>, p: Seq<u8>) -> bool {
    s.len() >= p.len() && s.subrange(0, p.len() as int) == p
}

/// The scheme separator `://`.
pub open spec fn scheme_sep() -> Seq<u8> {
    seq![58u8, 47u8, 47u8]
}

/// A path names a cloud object iff it begins with a recognised scheme
/// token followed by `://`.
pub open spec fn is_cloud_path(s: Seq<u8>) -> bool {
    ||| starts_with(s, seq![115u8, 51u8] + scheme_sep())  // s3
    ||| starts_with(s, seq![115u8, 51u8, 97u8] + scheme_sep())  // s3a
    ||| starts_with(s, seq![103u8, 115u8] + scheme_sep())  // gs
    ||| starts_with(s, seq![103u8, 99u8, 115u8] + scheme_sep())  // gcs
    ||| starts_with(s, seq![97u8, 122u8] + scheme_sep())  // az
    ||| starts_with(s, seq![97u8, 98u8, 102u8, 115u8] + scheme_sep())  // abfs
    ||| starts_with(s, seq![97u8, 98u8, 102u8, 115u8, 115u8] + scheme_sep())  // abfss
    ||| starts_with(s, seq![97u8, 100u8, 108u8] + scheme_sep())  // adl
    ||| starts_with(s, seq![97u8, 122u8, 117u8, 114u8, 101u8] + scheme_sep())  // azure
}

/// Whether the bytes of `p` open `s`.
pub fn has_prefix(s: &Vec<u8>, p: &Vec<u8>) -> (r: bool)
    ensures
        r == starts_with(s@, p@),
{
    if s.len() < p.len() {
        proof {
            assert(!starts_with(s@, p@));
        }
        return false;
    }
    let mut i: usize = 0;
    while i < p.len()
        invariant
            i <= p.len(),
            p.len() <= s.len(),
            forall|j: int| 0 <= j < i ==> s@[j] == p@[j],
        decreases p.len() - i,
    {
        if s[i] != p[i] {
            proof {
                assert(s@.subrange(0, p@.len() as int)[i as int] != p@[i as int]);
            }
            return false;
        }
        i = i + 1;
    }
    proof {
        assert(s@.subrange(0, p@.len() as int) =~= p@);
    }
    true
}

/// A scheme token followed by `://`.
pub fn scheme_prefix(scheme: &Vec<u8>) -> (r: Vec<u8>)
    ensures
        r@ == scheme@ + scheme_sep(),
{
    let mut r = crate::dialect::clone_bytes(scheme);
    r.push(58);
    r.push(47);
    r.push(47);
    proof {
        assert(r@ =~= scheme@ + scheme_sep());
    }
    r
}

/// Whether the path begins with this scheme token and `://`.
fn has_scheme(path: &Vec<u8>, scheme: &Vec<u8>) -> (r: bool)
    ensures
        r == starts_with(path@, scheme@ + scheme_sep()),
{
    let p = scheme_prefix(scheme);
    has_prefix(path, &p)
}

/// Picks the backend from the path: a recognised `scheme://` head selects
/// the cloud object writer, anything else the local filesystem.
pub fn classify_path(path: &Vec<u8>) -> (r: Backend)
    ensures
        (r is Cloud) <==> is_cloud_path(path@),
{
    let mut sch: Vec<u8> = Vec::new();
    sch.push(115);
    sch.push(51);
    proof {
        assert(sch@ =~= seq![115u8, 51u8]);
    }
    let c_s3 = has_scheme(path, &sch);
    sch.push(97);
    proof {
        assert(sch@ =~= seq![115u8, 51u8, 97u8]);
    }
    let c_s3a = has_scheme(path, &sch);
    let mut sch: Vec<u8> = Vec::new();
    sch.push(103);
    sch.push(115);
    proof {
        assert(sch@ =~= seq![103u8, 115u8]);
    }
    let c_gs = has_scheme(path, &sch);
    let mut sch: Vec<u8> = Vec::new();
    sch.push(103);
    sch.push(99);
    sch.push(115);
    proof {
        assert(sch@ =~= seq![103u8, 99u8, 115u8]);
    }
    let c_gcs = has_scheme(path, &sch);
    let mut sch: Vec<u8> = Vec::new();
    sch.push(97);
    sch.push(122);
    proof {
        assert(sch@ =~= seq![97u8, 122u8]);
    }
    let c_az = has_scheme(path, &sch);
    sch.push(117);
    sch.push(114);
    sch.push(101);
    proof {
        assert(sch@ =~= seq![97u8, 122u8, 117u8, 114u8, 101u8]);
    }
    let c_azure = has_scheme(path, &sch);
    let mut sch: Vec<u8> = Vec::new();
    sch.push(97);
    sch.push(98);
    sch.push(102);
    sch.push(115);
    proof {
        assert(sch@ =~= seq![97u8, 98u8, 102u8, 115u8]);
    }
    let c_abfs = has_scheme(path, &sch);
    sch.push(115);
    proof {
        assert(sch@ =~= seq![97u8, 98u8, 102u8, 115u8, 115u8]);
    }
    let c_abfss = has_scheme(path, &sch);
    let mut sch: Vec<u8> = Vec::new();
    sch.push(97);
    sch.push(100);
    sch.push(108);
    proof {
        assert(sch@ =~= seq![97u8, 100u8, 108u8]);
    }
    let c_adl = has_scheme(path, &sch);
    if c_s3 || c_s3a || c_gs || c_gcs || c_az || c_azure || c_abfs || c_abfss || c_adl {
        Backend::Cloud
    } else {
        Backend::Local
    }
}

/// An fsync is owed exactly when the output is a local file and some
/// durability was asked for; cloud backends never fsync.
pub fn should_fsync(backend: Backend, sync_on_close: SyncOnClose) -> (r: bool)
    ensures
        r <==> (backend is Local && !(sync_on_close is Off)),
{
    match backend {
        Backend::Cloud => false,
        Backend::Local => match sync_on_close {
            SyncOnClose::Off => false,
            SyncOnClose::Data => true,
            SyncOnClose::All => true,
        },
    }
}

} // verus!
