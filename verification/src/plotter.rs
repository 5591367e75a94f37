//! Naming of the files that a parameter plot is written to.

use vstd::prelude::*;
use vstd::string::*;

verus! {

/// What a parameter plot measures.
#[derive(Clone, Copy)]
pub enum PlotType {
    /// Root mean square of the signal, relative to the unmodified sound.
    Rms,
    /// Peak of the whole processed sound, relative to the unmodified sound.
    Peak,
    /// Mean of the peaks of smaller blocks of the sound.
    MeanLoudness,
}

/// The part of a file name that stands for a plot type.
pub open spec fn plot_type_tag(plot_type: PlotType) -> Seq<char> {
    match plot_type {
        PlotType::Rms => "rms"@,
        PlotType::Peak => "peak"@,
        PlotType::MeanLoudness => "mean-peak"@,
    }
}

/// The ending of a file name: that of the picture, or that of the points.
pub open spec fn path_ending(plot: bool) -> Seq<char> {
    if plot {
        "-plot.png"@
    } else {
        "-data.txt"@
    }
}

/// The file name for a target, a plot type and a kind of file.
pub open spec fn path_of(target_path: Seq<char>, plot_type: PlotType, plot: bool) -> Seq<char> {
    target_path + "-"@ + plot_type_tag(plot_type) + path_ending(plot)
}

/// Builds the path of the plot (`plot` set) or of the points data (`plot` not
/// set) for the given target and plot type.
pub fn get_path(target_path: &str, plot_type: PlotType, plot: bool) -> (path: String)
    ensures
        path@ == path_of(target_path@, plot_type, plot),
{
    let mut path = String::from_str(target_path);
    path.append("-");
    match plot_type {
        PlotType::Rms => path.append("rms"),
        PlotType::Peak => path.append("peak"),
        PlotType::MeanLoudness => path.append("mean-peak"),
    }
    if plot {
        path.append("-plot.png");
    } else {
        path.append("-data.txt");
    }
    path
}

} // verus!
