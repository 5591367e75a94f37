use dsp_utils::plotter::get_path;
use dsp_utils::PlotType;

#[test]
fn path_of_a_plot() {
    assert_eq!(get_path("gain", PlotType::Rms, true), "gain-rms-plot.png");
    assert_eq!(get_path("gain", PlotType::Peak, true), "gain-peak-plot.png");
    assert_eq!(
        get_path("gain", PlotType::MeanLoudness, true),
        "gain-mean-peak-plot.png"
    );
}

#[test]
fn path_of_the_points() {
    assert_eq!(get_path("drive", PlotType::Rms, false), "drive-rms-data.txt");
    assert_eq!(get_path("", PlotType::Peak, false), "-peak-data.txt");
    assert_eq!(
        get_path("out/é", PlotType::MeanLoudness, false),
        "out/é-mean-peak-data.txt"
    );
}
