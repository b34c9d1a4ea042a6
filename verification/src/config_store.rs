//! The configuration aggregate that every processing call receives as an
//! explicit value: filter, statistics and column-selection switches for
//! the delimited-text source, and tag names for the markup source.

use vstd::prelude::*;

verus! {

use vstd::string::StringExecFns;

/// Configuration for the processing pipeline, independent of any user
/// interface, so that it can be passed around easily.
#[derive(Clone, PartialEq, Eq, PartialOrd, Ord, Debug, Hash)]
pub struct ConfigStore {
    /// Whether rows of the delimited source are filtered to specific
    /// classification values.
    pub csv_class_filter_enabled: bool,
    /// The classification values the filter keeps, such as "Sound".
    pub csv_class_filter_filters: Vec<String>,
    /// The header of the column holding the classification.
    pub csv_class_filter_class: String,
    /// Whether statistics columns are computed for the delimited source.
    pub csv_stat_columns_enabled: bool,
    /// The headers of the columns to compute statistics on.
    pub csv_stat_columns_columns: Vec<String>,
    /// Whether per-sample classification percentages are computed.
    pub csv_class_percent_enabled: bool,
    /// The header of the column holding the sample identifier in the
    /// delimited source.
    pub csv_sample_id_header: String,
    /// Whether columns pulled from the markup source's sieve data are
    /// included.
    pub xml_sieve_cols_enabled: bool,
    /// The tag holding the sample identifier in the markup source.
    pub xml_sample_id_header: String,
    /// The tag whose end event closes one sample record.
    pub xml_sample_closing_tag: String,
    /// Further markup tags whose text should become cells.
    pub xml_tags_to_include: Vec<String>,
    /// Marks a configuration personalized for a particular person.
    pub personalized_config_name: String,
}

/// The default settings, shared by every preset: everything enabled, the
/// "Sound" class filter, the standard statistics columns, and the
/// standard markup tag names.
pub open spec fn is_base_config(c: ConfigStore) -> bool {
    &&& c.csv_class_filter_enabled == true
    &&& c.csv_class_filter_filters@.len() == 1
    &&& c.csv_class_filter_filters@[0]@ == "Sound"@
    &&& c.csv_class_filter_class@ == "cor-filtered-as"@
    &&& c.csv_stat_columns_enabled == true
    &&& c.csv_stat_columns_columns@.len() == 14
    &&& c.csv_stat_columns_columns@[0]@ == "Area"@
    &&& c.csv_stat_columns_columns@[1]@ == "Length"@
    &&& c.csv_stat_columns_columns@[2]@ == "Width"@
    &&& c.csv_stat_columns_columns@[3]@ == "Thickness"@
    &&& c.csv_stat_columns_columns@[4]@ == "Ratio"@
    &&& c.csv_stat_columns_columns@[5]@ == "Mean Width"@
    &&& c.csv_stat_columns_columns@[6]@ == "Volume"@
    &&& c.csv_stat_columns_columns@[7]@ == "Weight"@
    &&& c.csv_stat_columns_columns@[8]@ == "Light"@
    &&& c.csv_stat_columns_columns@[9]@ == "Hue"@
    &&& c.csv_stat_columns_columns@[10]@ == "Saturation"@
    &&& c.csv_stat_columns_columns@[11]@ == "Red"@
    &&& c.csv_stat_columns_columns@[12]@ == "Green"@
    &&& c.csv_stat_columns_columns@[13]@ == "Blue"@
    &&& c.csv_class_percent_enabled == true
    &&& c.csv_sample_id_header@ == "external-sample-id"@
    &&& c.xml_sieve_cols_enabled == true
    &&& c.xml_sample_id_header@ == "reference"@
    &&& c.xml_sample_closing_tag@ == "sample-result"@
    &&& c.xml_tags_to_include@.len() == 1
    &&& c.xml_tags_to_include@[0]@ == "sample-id"@
}

impl Default for ConfigStore {
    /// The default configuration, personalized for nobody.
    fn default() -> (r: ConfigStore)
        ensures
            is_base_config(r),
            r.personalized_config_name@ == ""@,
    {
        let mut class_filters_vec: Vec<String> = Vec::new();
        class_filters_vec.push(String::from_str("Sound"));

        let mut stat_columns_vec: Vec<String> = Vec::new();
        stat_columns_vec.push(String::from_str("Area"));
        stat_columns_vec.push(String::from_str("Length"));
        stat_columns_vec.push(String::from_str("Width"));
        stat_columns_vec.push(String::from_str("Thickness"));
        stat_columns_vec.push(String::from_str("Ratio"));
        stat_columns_vec.push(String::from_str("Mean Width"));
        stat_columns_vec.push(String::from_str("Volume"));
        stat_columns_vec.push(String::from_str("Weight"));
        stat_columns_vec.push(String::from_str("Light"));
        stat_columns_vec.push(String::from_str("Hue"));
        stat_columns_vec.push(String::from_str("Saturation"));
        stat_columns_vec.push(String::from_str("Red"));
        stat_columns_vec.push(String::from_str("Green"));
        stat_columns_vec.push(String::from_str("Blue"));

        let mut xml_tags_vec: Vec<String> = Vec::new();
        xml_tags_vec.push(String::from_str("sample-id"));

        ConfigStore {
            csv_class_filter_enabled: true,
            csv_class_filter_filters: class_filters_vec,
            csv_class_filter_class: String::from_str("cor-filtered-as"),
            csv_stat_columns_enabled: true,
            csv_stat_columns_columns: stat_columns_vec,
            csv_class_percent_enabled: true,
            csv_sample_id_header: String::from_str("external-sample-id"),
            xml_sieve_cols_enabled: true,
            xml_sample_id_header: String::from_str("reference"),
            xml_sample_closing_tag: String::from_str("sample-result"),
            xml_tags_to_include: xml_tags_vec,
            personalized_config_name: String::from_str(""),
        }
    }
}

/// Gets the default configuration personalized for the needs of Scott.
pub fn get_scott_config() -> (r: ConfigStore)
    ensures
        is_base_config(r),
        r.personalized_config_name@ == "Scott"@,
{
    let mut conf = ConfigStore::default();
    conf.personalized_config_name = String::from_str("Scott");
    conf
}

/// Gets the default configuration personalized for the needs of Rhett.
pub fn get_rhett_config() -> (r: ConfigStore)
    ensures
        is_base_config(r),
        r.personalized_config_name@ == "Rhett"@,
{
    let mut conf = ConfigStore::default();
    conf.personalized_config_name = String::from_str("Rhett");
    conf
}

} // verus!
