//! Laws of the choice of a format: as asked for, or as the first bytes tell.
use vstd::prelude::*;

use crate::anvil::{anvil_region, ExternalChunk};
use crate::archive::{detected_region, Fault, RegionModel};
use crate::b_linear::b_linear_region;
use crate::cli::ArchiveFormatArg;
use crate::linear::linear_region;
use crate::name_laws::{begins, type_is_told_by_the_first_bytes};
use crate::scan::{file_region, reads_as_anvil, takes_name};
use crate::util::TypeFault;

verus! {

/// A format that is asked for is the one that is read, whatever the first bytes.
pub proof fn asked_format_is_read(name: Seq<char>, d: Seq<u8>, externals: Seq<ExternalChunk>)
    ensures
        file_region(name, d, externals, Some(ArchiveFormatArg::Anvil)) == anvil_region(name, d, externals),
        file_region(name, d, externals, Some(ArchiveFormatArg::LinearV2)) == linear_region(d),
        file_region(name, d, externals, Some(ArchiveFormatArg::BLinearV3)) == b_linear_region(name, d),
        reads_as_anvil(d, Some(ArchiveFormatArg::Anvil)),
        !reads_as_anvil(d, Some(ArchiveFormatArg::LinearV2)),
        !reads_as_anvil(d, Some(ArchiveFormatArg::BLinearV3)),
        takes_name(d, Some(ArchiveFormatArg::Anvil)),
        !takes_name(d, Some(ArchiveFormatArg::LinearV2)),
        takes_name(d, Some(ArchiveFormatArg::BLinearV3)),
{
}

/// Where none is asked for, the first eight bytes tell the format, and the byte behind them the
/// version: linear and b_linear files are read in version 3, older linear files and all other
/// versions are refused, and what begins otherwise is read as anvil.
pub proof fn first_bytes_tell_the_format(
    name: Seq<char>,
    d: Seq<u8>,
    externals: Seq<ExternalChunk>,
    format: Option<ArchiveFormatArg>,
)
    requires
        format is None || format == Some(ArchiveFormatArg::Auto),
    ensures
        file_region(name, d, externals, format) == detected_region(name, d, externals),
        ({
            let read = file_region(name, d, externals, format);
            let b_linear = begins(d, 0xFF, 0xFF, 0xDF, 0xF7, 0xED, 0xDA, 0xFD, 0x97);
            let linear = begins(d, 0xC3, 0xFF, 0x13, 0x18, 0x3C, 0xCA, 0x9D, 0x9A);
            &&& !b_linear && !linear ==> read == anvil_region(name, d, externals)
            &&& b_linear && d.len() > 8 && d[8] == 3 ==> read == b_linear_region(name, d)
            &&& linear && d.len() > 8 && d[8] == 3 ==> read == linear_region(d)
            &&& linear && d.len() > 8 && (d[8] == 1 || d[8] == 2) ==> read == Err::<RegionModel, Fault>(
                Fault::LinearV1,
            )
            &&& (b_linear || linear) && d.len() == 8 ==> read == Err::<RegionModel, Fault>(Fault::Truncated)
            &&& b_linear && d.len() > 8 && d[8] != 3 ==> read == Err::<RegionModel, Fault>(
                Fault::Version(TypeFault::BLinearVersion),
            )
            &&& linear && d.len() > 8 && d[8] != 1 && d[8] != 2 && d[8] != 3 ==> read == Err::<RegionModel, Fault>(
                Fault::Version(TypeFault::LinearVersion),
            )
            &&& reads_as_anvil(d, format) <==> !b_linear && !linear
            &&& takes_name(d, format) <==> (!b_linear && !linear) || (b_linear && d.len() > 8 && d[8] == 3)
        }),
{
    type_is_told_by_the_first_bytes(d);
}

} // verus!
