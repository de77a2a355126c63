//! The paths of extent files, as the bytes that Unix sees.

use vstd::prelude::*;
use vstd::string::*;

verus! {

/// The byte `/`.
pub const SEPARATOR: u8 = 0x2f;

/// `name` seen from the directory `base`. A separator stands between the two,
/// unless `base` ends with one or is empty.
pub open spec fn joined(base: Seq<u8>, name: Seq<u8>) -> Seq<u8> {
    if base.len() == 0 || base.last() == SEPARATOR {
        base + name
    } else {
        base.push(SEPARATOR) + name
    }
}

/// The path of the file `name` of an image in the directory `base`: `name`
/// itself where it starts with a separator.
pub open spec fn located(base: Seq<u8>, name: Seq<u8>) -> Seq<u8> {
    if name.len() > 0 && name[0] == SEPARATOR {
        name
    } else {
        joined(base, name)
    }
}

/// The path of a name that starts with `/` is the name. Any other path ends with
/// the whole name; in front of it stand the directory and, where the directory has
/// bytes and the last of them is not `/`, a single `/`.
pub proof fn law_located(base: Seq<u8>, name: Seq<u8>)
    ensures
        name.len() > 0 && name[0] == 0x2f ==> located(base, name) == name,
        !(name.len() > 0 && name[0] == 0x2f) ==> {
            let path = located(base, name);
            let separated = base.len() > 0 && base[base.len() - 1] != 0x2f;
            &&& path.len() == base.len() + name.len() + if separated {
                1int
            } else {
                0
            }
            &&& path.take(base.len() as int) == base
            &&& path.skip(path.len() - name.len()) == name
            &&& separated ==> path[base.len() as int] == 0x2f
        },
{
    let path = located(base, name);
    if !(name.len() > 0 && name[0] == 0x2f) {
        assert(path.take(base.len() as int) =~= base);
        assert(path.skip(path.len() - name.len()) =~= name);
    }
}

/// Finds the file that an image in the directory `base` calls `name`.
pub fn absolute_or_join(base: &[u8], name: &str) -> (path: Vec<u8>)
    ensures
        path@ == located(base@, name.spec_bytes()),
        name.spec_bytes().len() > 0 && name.spec_bytes()[0] == 0x2f ==> path@ == name.spec_bytes(),
        !(name.spec_bytes().len() > 0 && name.spec_bytes()[0] == 0x2f) ==> {
            let bytes = name.spec_bytes();
            let separated = base@.len() > 0 && base@[base@.len() - 1] != 0x2f;
            &&& path@.len() == base@.len() + bytes.len() + if separated {
                1int
            } else {
                0
            }
            &&& path@.take(base@.len() as int) == base@
            &&& path@.skip(path@.len() - bytes.len()) == bytes
            &&& separated ==> path@[base@.len() as int] == 0x2f
        },
{
    proof {
        law_located(base@, name.spec_bytes());
    }
    let name = name.as_bytes();
    let mut path: Vec<u8> = Vec::new();
    if !(name.len() > 0 && name[0] == SEPARATOR) {
        path.extend_from_slice(base);
        if base.len() > 0 && base[base.len() - 1] != SEPARATOR {
            path.push(SEPARATOR);
        }
    }
    path.extend_from_slice(name);
    path
}

} // verus!
