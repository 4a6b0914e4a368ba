//! The sample files that the application can write out.
use vstd::prelude::*;
use crate::order::str_equal;

verus! {

/// The kinds of sample file.
#[derive(PartialEq, Eq, Structural, Clone, Copy, Debug)]
pub enum SampleKind {
    Sales,
    Master,
    Rfm,
    Trend,
    Anomaly,
    Cluster,
}

/// The sample kind that a name asks for; an unknown name asks for sales.
pub open spec fn sample_kind_named(name: Seq<char>) -> SampleKind {
    if name == "sales"@ {
        SampleKind::Sales
    } else if name == "master"@ {
        SampleKind::Master
    } else if name == "rfm"@ {
        SampleKind::Rfm
    } else if name == "trend"@ {
        SampleKind::Trend
    } else if name == "anomaly"@ {
        SampleKind::Anomaly
    } else if name == "cluster"@ {
        SampleKind::Cluster
    } else {
        SampleKind::Sales
    }
}

/// The file name under which a sample is written.
pub open spec fn sample_file_name(kind: SampleKind) -> Seq<char> {
    match kind {
        SampleKind::Sales => "sample_sales.csv"@,
        SampleKind::Master => "sample_master.csv"@,
        SampleKind::Rfm => "sample_rfm.csv"@,
        SampleKind::Trend => "sample_trend.csv"@,
        SampleKind::Anomaly => "sample_anomaly.csv"@,
        SampleKind::Cluster => "sample_cluster.csv"@,
    }
}

impl SampleKind {
    /// The sample kind that a name asks for.
    pub fn from_name(name: &str) -> (kind: SampleKind)
        ensures
            kind == sample_kind_named(name@),
    {
        if str_equal(name, "sales") {
            SampleKind::Sales
        } else if str_equal(name, "master") {
            SampleKind::Master
        } else if str_equal(name, "rfm") {
            SampleKind::Rfm
        } else if str_equal(name, "trend") {
            SampleKind::Trend
        } else if str_equal(name, "anomaly") {
            SampleKind::Anomaly
        } else if str_equal(name, "cluster") {
            SampleKind::Cluster
        } else {
            SampleKind::Sales
        }
    }

    /// The file name under which the sample is written.
    pub fn file_name(&self) -> (name: &'static str)
        ensures
            name@ == sample_file_name(*self),
    {
        match self {
            SampleKind::Sales => "sample_sales.csv",
            SampleKind::Master => "sample_master.csv",
            SampleKind::Rfm => "sample_rfm.csv",
            SampleKind::Trend => "sample_trend.csv",
            SampleKind::Anomaly => "sample_anomaly.csv",
            SampleKind::Cluster => "sample_cluster.csv",
        }
    }
}

/// All sample kinds, in the order in which the samples are written out.
pub fn all_sample_kinds() -> (kinds: Vec<SampleKind>)
    ensures
        kinds@ == seq![
            SampleKind::Sales,
            SampleKind::Master,
            SampleKind::Rfm,
            SampleKind::Trend,
            SampleKind::Anomaly,
            SampleKind::Cluster,
        ],
{
    let kinds = vec![
        SampleKind::Sales,
        SampleKind::Master,
        SampleKind::Rfm,
        SampleKind::Trend,
        SampleKind::Anomaly,
        SampleKind::Cluster,
    ];
    assert(kinds@ =~= seq![
        SampleKind::Sales,
        SampleKind::Master,
        SampleKind::Rfm,
        SampleKind::Trend,
        SampleKind::Anomaly,
        SampleKind::Cluster,
    ]);
    kinds
}

} // verus!
