//! The multiplier checklist of the contest.
use vstd::prelude::*;

use crate::model;
use crate::text;

verus! {

/// The parts of the checklist.
#[derive(Debug, Clone, Copy, PartialEq, Eq, PartialOrd, Ord, Structural)]
pub enum MultiplierGroup {
    UsDc,
    Canada,
    OtherNorthAmerica,
}

/// A row of the checklist. The code is what is printed and sent; the identifier tells rows of
/// one code apart.
#[derive(Debug, Clone, Copy, PartialEq, Eq)]
pub struct MultiplierDefinition {
    pub id: &'static str,
    pub code: &'static str,
    pub display_name: &'static str,
    pub group: MultiplierGroup,
}

/// The states of the United States and the District of Columbia.
#[verifier::opaque]
pub open spec fn us_rows() -> Seq<MultiplierDefinition> {
    seq![
        MultiplierDefinition {
            id: "AL",
            code: "AL",
            display_name: "Alabama",
            group: MultiplierGroup::UsDc,
        },
        MultiplierDefinition {
            id: "AK",
            code: "AK",
            display_name: "Alaska",
            group: MultiplierGroup::UsDc,
        },
        MultiplierDefinition {
            id: "AZ",
            code: "AZ",
            display_name: "Arizona",
            group: MultiplierGroup::UsDc,
        },
        MultiplierDefinition {
            id: "AR",
            code: "AR",
            display_name: "Arkansas",
            group: MultiplierGroup::UsDc,
        },
        MultiplierDefinition {
            id: "CA",
            code: "CA",
            display_name: "California",
            group: MultiplierGroup::UsDc,
        },
        MultiplierDefinition {
            id: "CO",
            code: "CO",
            display_name: "Colorado",
            group: MultiplierGroup::UsDc,
        },
        MultiplierDefinition {
            id: "CT",
            code: "CT",
            display_name: "Connecticut",
            group: MultiplierGroup::UsDc,
        },
        MultiplierDefinition {
            id: "DE",
            code: "DE",
            display_name: "Delaware",
            group: MultiplierGroup::UsDc,
        },
        MultiplierDefinition {
            id: "FL",
            code: "FL",
            display_name: "Florida",
            group: MultiplierGroup::UsDc,
        },
        MultiplierDefinition {
            id: "GA",
            code: "GA",
            display_name: "Georgia",
            group: MultiplierGroup::UsDc,
        },
        MultiplierDefinition {
            id: "US-HI",
            code: "HI",
            display_name: "Hawaii",
            group: MultiplierGroup::UsDc,
        },
        MultiplierDefinition {
            id: "ID",
            code: "ID",
            display_name: "Idaho",
            group: MultiplierGroup::UsDc,
        },
        MultiplierDefinition {
            id: "IL",
            code: "IL",
            display_name: "Illinois",
            group: MultiplierGroup::UsDc,
        },
        MultiplierDefinition {
            id: "IN",
            code: "IN",
            display_name: "Indiana",
            group: MultiplierGroup::UsDc,
        },
        MultiplierDefinition {
            id: "IA",
            code: "IA",
            display_name: "Iowa",
            group: MultiplierGroup::UsDc,
        },
        MultiplierDefinition {
            id: "KS",
            code: "KS",
            display_name: "Kansas",
            group: MultiplierGroup::UsDc,
        },
        MultiplierDefinition {
            id: "KY",
            code: "KY",
            display_name: "Kentucky",
            group: MultiplierGroup::UsDc,
        },
        MultiplierDefinition {
            id: "LA",
            code: "LA",
            display_name: "Louisiana",
            group: MultiplierGroup::UsDc,
        },
        MultiplierDefinition {
            id: "ME",
            code: "ME",
            display_name: "Maine",
            group: MultiplierGroup::UsDc,
        },
        MultiplierDefinition {
            id: "MD",
            code: "MD",
            display_name: "Maryland",
            group: MultiplierGroup::UsDc,
        },
        MultiplierDefinition {
            id: "MA",
            code: "MA",
            display_name: "Massachusetts",
            group: MultiplierGroup::UsDc,
        },
        MultiplierDefinition {
            id: "MI",
            code: "MI",
            display_name: "Michigan",
            group: MultiplierGroup::UsDc,
        },
        MultiplierDefinition {
            id: "MN",
            code: "MN",
            display_name: "Minnesota",
            group: MultiplierGroup::UsDc,
        },
        MultiplierDefinition {
            id: "MS",
            code: "MS",
            display_name: "Mississippi",
            group: MultiplierGroup::UsDc,
        },
        MultiplierDefinition {
            id: "MO",
            code: "MO",
            display_name: "Missouri",
            group: MultiplierGroup::UsDc,
        },
        MultiplierDefinition {
            id: "MT",
            code: "MT",
            display_name: "Montana",
            group: MultiplierGroup::UsDc,
        },
        MultiplierDefinition {
            id: "NE",
            code: "NE",
            display_name: "Nebraska",
            group: MultiplierGroup::UsDc,
        },
        MultiplierDefinition {
            id: "NV",
            code: "NV",
            display_name: "Nevada",
            group: MultiplierGroup::UsDc,
        },
        MultiplierDefinition {
            id: "NH",
            code: "NH",
            display_name: "New Hampshire",
            group: MultiplierGroup::UsDc,
        },
        MultiplierDefinition {
            id: "NJ",
            code: "NJ",
            display_name: "New Jersey",
            group: MultiplierGroup::UsDc,
        },
        MultiplierDefinition {
            id: "NM",
            code: "NM",
            display_name: "New Mexico",
            group: MultiplierGroup::UsDc,
        },
        MultiplierDefinition {
            id: "NY",
            code: "NY",
            display_name: "New York",
            group: MultiplierGroup::UsDc,
        },
        MultiplierDefinition {
            id: "NC",
            code: "NC",
            display_name: "North Carolina",
            group: MultiplierGroup::UsDc,
        },
        MultiplierDefinition {
            id: "ND",
            code: "ND",
            display_name: "North Dakota",
            group: MultiplierGroup::UsDc,
        },
        MultiplierDefinition {
            id: "OH",
            code: "OH",
            display_name: "Ohio",
            group: MultiplierGroup::UsDc,
        },
        MultiplierDefinition {
            id: "OK",
            code: "OK",
            display_name: "Oklahoma",
            group: MultiplierGroup::UsDc,
        },
        MultiplierDefinition {
            id: "OR",
            code: "OR",
            display_name: "Oregon",
            group: MultiplierGroup::UsDc,
        },
        MultiplierDefinition {
            id: "PA",
            code: "PA",
            display_name: "Pennsylvania",
            group: MultiplierGroup::UsDc,
        },
        MultiplierDefinition {
            id: "RI",
            code: "RI",
            display_name: "Rhode Island",
            group: MultiplierGroup::UsDc,
        },
        MultiplierDefinition {
            id: "SC",
            code: "SC",
            display_name: "South Carolina",
            group: MultiplierGroup::UsDc,
        },
        MultiplierDefinition {
            id: "SD",
            code: "SD",
            display_name: "South Dakota",
            group: MultiplierGroup::UsDc,
        },
        MultiplierDefinition {
            id: "TN",
            code: "TN",
            display_name: "Tennessee",
            group: MultiplierGroup::UsDc,
        },
        MultiplierDefinition {
            id: "TX",
            code: "TX",
            display_name: "Texas",
            group: MultiplierGroup::UsDc,
        },
        MultiplierDefinition {
            id: "UT",
            code: "UT",
            display_name: "Utah",
            group: MultiplierGroup::UsDc,
        },
        MultiplierDefinition {
            id: "VT",
            code: "VT",
            display_name: "Vermont",
            group: MultiplierGroup::UsDc,
        },
        MultiplierDefinition {
            id: "VA",
            code: "VA",
            display_name: "Virginia",
            group: MultiplierGroup::UsDc,
        },
        MultiplierDefinition {
            id: "WA",
            code: "WA",
            display_name: "Washington",
            group: MultiplierGroup::UsDc,
        },
        MultiplierDefinition {
            id: "WV",
            code: "WV",
            display_name: "West Virginia",
            group: MultiplierGroup::UsDc,
        },
        MultiplierDefinition {
            id: "WI",
            code: "WI",
            display_name: "Wisconsin",
            group: MultiplierGroup::UsDc,
        },
        MultiplierDefinition {
            id: "WY",
            code: "WY",
            display_name: "Wyoming",
            group: MultiplierGroup::UsDc,
        },
        MultiplierDefinition {
            id: "DC",
            code: "DC",
            display_name: "District of Columbia",
            group: MultiplierGroup::UsDc,
        },
    ]
}

/// The provinces and territories of Canada.
#[verifier::opaque]
pub open spec fn canadian_rows() -> Seq<MultiplierDefinition> {
    seq![
        MultiplierDefinition {
            id: "AB",
            code: "AB",
            display_name: "Alberta",
            group: MultiplierGroup::Canada,
        },
        MultiplierDefinition {
            id: "BC",
            code: "BC",
            display_name: "British Columbia",
            group: MultiplierGroup::Canada,
        },
        MultiplierDefinition {
            id: "MB",
            code: "MB",
            display_name: "Manitoba",
            group: MultiplierGroup::Canada,
        },
        MultiplierDefinition {
            id: "NB",
            code: "NB",
            display_name: "New Brunswick",
            group: MultiplierGroup::Canada,
        },
        MultiplierDefinition {
            id: "NL",
            code: "NL",
            display_name: "Newfoundland and Labrador",
            group: MultiplierGroup::Canada,
        },
        MultiplierDefinition {
            id: "NS",
            code: "NS",
            display_name: "Nova Scotia",
            group: MultiplierGroup::Canada,
        },
        MultiplierDefinition {
            id: "NT",
            code: "NT",
            display_name: "Northwest Territories",
            group: MultiplierGroup::Canada,
        },
        MultiplierDefinition {
            id: "NU",
            code: "NU",
            display_name: "Nunavut",
            group: MultiplierGroup::Canada,
        },
        MultiplierDefinition {
            id: "ON",
            code: "ON",
            display_name: "Ontario",
            group: MultiplierGroup::Canada,
        },
        MultiplierDefinition {
            id: "PE",
            code: "PE",
            display_name: "Prince Edward Island",
            group: MultiplierGroup::Canada,
        },
        MultiplierDefinition {
            id: "QC",
            code: "QC",
            display_name: "Quebec",
            group: MultiplierGroup::Canada,
        },
        MultiplierDefinition {
            id: "SK",
            code: "SK",
            display_name: "Saskatchewan",
            group: MultiplierGroup::Canada,
        },
        MultiplierDefinition {
            id: "YT",
            code: "YT",
            display_name: "Yukon",
            group: MultiplierGroup::Canada,
        },
    ]
}

/// The other countries and entities of North America.
#[verifier::opaque]
pub open spec fn other_rows() -> Seq<MultiplierDefinition> {
    seq![
        MultiplierDefinition {
            id: "4U1U",
            code: "4U1U",
            display_name: "United Nations Headquarters",
            group: MultiplierGroup::OtherNorthAmerica,
        },
        MultiplierDefinition {
            id: "6Y",
            code: "6Y",
            display_name: "Jamaica",
            group: MultiplierGroup::OtherNorthAmerica,
        },
        MultiplierDefinition {
            id: "8P",
            code: "8P",
            display_name: "Barbados",
            group: MultiplierGroup::OtherNorthAmerica,
        },
        MultiplierDefinition {
            id: "C6",
            code: "C6",
            display_name: "Bahamas",
            group: MultiplierGroup::OtherNorthAmerica,
        },
        MultiplierDefinition {
            id: "CM",
            code: "CM",
            display_name: "Cuba",
            group: MultiplierGroup::OtherNorthAmerica,
        },
        MultiplierDefinition {
            id: "CY9",
            code: "CY9",
            display_name: "Saint Paul Island",
            group: MultiplierGroup::OtherNorthAmerica,
        },
        MultiplierDefinition {
            id: "CY0",
            code: "CY0",
            display_name: "Sable Island",
            group: MultiplierGroup::OtherNorthAmerica,
        },
        MultiplierDefinition {
            id: "FG",
            code: "FG",
            display_name: "Guadeloupe",
            group: MultiplierGroup::OtherNorthAmerica,
        },
        MultiplierDefinition {
            id: "FJ",
            code: "FJ",
            display_name: "Saint Barthelemy",
            group: MultiplierGroup::OtherNorthAmerica,
        },
        MultiplierDefinition {
            id: "FM",
            code: "FM",
            display_name: "Martinique",
            group: MultiplierGroup::OtherNorthAmerica,
        },
        MultiplierDefinition {
            id: "FO",
            code: "FO",
            display_name: "Clipperton Island",
            group: MultiplierGroup::OtherNorthAmerica,
        },
        MultiplierDefinition {
            id: "FP",
            code: "FP",
            display_name: "Saint Pierre and Miquelon",
            group: MultiplierGroup::OtherNorthAmerica,
        },
        MultiplierDefinition {
            id: "FS",
            code: "FS",
            display_name: "Saint Martin",
            group: MultiplierGroup::OtherNorthAmerica,
        },
        MultiplierDefinition {
            id: "HH",
            code: "HH",
            display_name: "Haiti",
            group: MultiplierGroup::OtherNorthAmerica,
        },
        MultiplierDefinition {
            id: "DXCC-HI",
            code: "HI",
            display_name: "Dominican Republic",
            group: MultiplierGroup::OtherNorthAmerica,
        },
        MultiplierDefinition {
            id: "HK0",
            code: "HK0",
            display_name: "San Andres and Providencia",
            group: MultiplierGroup::OtherNorthAmerica,
        },
        MultiplierDefinition {
            id: "HP",
            code: "HP",
            display_name: "Panama",
            group: MultiplierGroup::OtherNorthAmerica,
        },
        MultiplierDefinition {
            id: "HR",
            code: "HR",
            display_name: "Honduras",
            group: MultiplierGroup::OtherNorthAmerica,
        },
        MultiplierDefinition {
            id: "J3",
            code: "J3",
            display_name: "Grenada",
            group: MultiplierGroup::OtherNorthAmerica,
        },
        MultiplierDefinition {
            id: "J6",
            code: "J6",
            display_name: "Saint Lucia",
            group: MultiplierGroup::OtherNorthAmerica,
        },
        MultiplierDefinition {
            id: "J7",
            code: "J7",
            display_name: "Dominica",
            group: MultiplierGroup::OtherNorthAmerica,
        },
        MultiplierDefinition {
            id: "J8",
            code: "J8",
            display_name: "Saint Vincent",
            group: MultiplierGroup::OtherNorthAmerica,
        },
        MultiplierDefinition {
            id: "KG4",
            code: "KG4",
            display_name: "Guantanamo Bay",
            group: MultiplierGroup::OtherNorthAmerica,
        },
        MultiplierDefinition {
            id: "KP1",
            code: "KP1",
            display_name: "Navassa Island",
            group: MultiplierGroup::OtherNorthAmerica,
        },
        MultiplierDefinition {
            id: "KP2",
            code: "KP2",
            display_name: "US Virgin Islands",
            group: MultiplierGroup::OtherNorthAmerica,
        },
        MultiplierDefinition {
            id: "KP4",
            code: "KP4",
            display_name: "Puerto Rico",
            group: MultiplierGroup::OtherNorthAmerica,
        },
        MultiplierDefinition {
            id: "KP5",
            code: "KP5",
            display_name: "Desecheo Island",
            group: MultiplierGroup::OtherNorthAmerica,
        },
        MultiplierDefinition {
            id: "OX",
            code: "OX",
            display_name: "Greenland",
            group: MultiplierGroup::OtherNorthAmerica,
        },
        MultiplierDefinition {
            id: "PJ5",
            code: "PJ5",
            display_name: "Saba and Saint Eustatius",
            group: MultiplierGroup::OtherNorthAmerica,
        },
        MultiplierDefinition {
            id: "PJ7",
            code: "PJ7",
            display_name: "Sint Maarten",
            group: MultiplierGroup::OtherNorthAmerica,
        },
        MultiplierDefinition {
            id: "TG",
            code: "TG",
            display_name: "Guatemala",
            group: MultiplierGroup::OtherNorthAmerica,
        },
        MultiplierDefinition {
            id: "TI",
            code: "TI",
            display_name: "Costa Rica",
            group: MultiplierGroup::OtherNorthAmerica,
        },
        MultiplierDefinition {
            id: "TI9",
            code: "TI9",
            display_name: "Cocos Island",
            group: MultiplierGroup::OtherNorthAmerica,
        },
        MultiplierDefinition {
            id: "V2",
            code: "V2",
            display_name: "Antigua and Barbuda",
            group: MultiplierGroup::OtherNorthAmerica,
        },
        MultiplierDefinition {
            id: "V3",
            code: "V3",
            display_name: "Belize",
            group: MultiplierGroup::OtherNorthAmerica,
        },
        MultiplierDefinition {
            id: "V4",
            code: "V4",
            display_name: "Saint Kitts and Nevis",
            group: MultiplierGroup::OtherNorthAmerica,
        },
        MultiplierDefinition {
            id: "VP2E",
            code: "VP2E",
            display_name: "Anguilla",
            group: MultiplierGroup::OtherNorthAmerica,
        },
        MultiplierDefinition {
            id: "VP2M",
            code: "VP2M",
            display_name: "Montserrat",
            group: MultiplierGroup::OtherNorthAmerica,
        },
        MultiplierDefinition {
            id: "VP2V",
            code: "VP2V",
            display_name: "British Virgin Islands",
            group: MultiplierGroup::OtherNorthAmerica,
        },
        MultiplierDefinition {
            id: "VP5",
            code: "VP5",
            display_name: "Turks and Caicos Islands",
            group: MultiplierGroup::OtherNorthAmerica,
        },
        MultiplierDefinition {
            id: "VP9",
            code: "VP9",
            display_name: "Bermuda",
            group: MultiplierGroup::OtherNorthAmerica,
        },
        MultiplierDefinition {
            id: "XE",
            code: "XE",
            display_name: "Mexico",
            group: MultiplierGroup::OtherNorthAmerica,
        },
        MultiplierDefinition {
            id: "XF4",
            code: "XF4",
            display_name: "Revillagigedo Islands",
            group: MultiplierGroup::OtherNorthAmerica,
        },
        MultiplierDefinition {
            id: "YN",
            code: "YN",
            display_name: "Nicaragua",
            group: MultiplierGroup::OtherNorthAmerica,
        },
        MultiplierDefinition {
            id: "YS",
            code: "YS",
            display_name: "El Salvador",
            group: MultiplierGroup::OtherNorthAmerica,
        },
        MultiplierDefinition {
            id: "YV0",
            code: "YV0",
            display_name: "Aves Island",
            group: MultiplierGroup::OtherNorthAmerica,
        },
        MultiplierDefinition {
            id: "ZF",
            code: "ZF",
            display_name: "Cayman Islands",
            group: MultiplierGroup::OtherNorthAmerica,
        },
    ]
}

/// The checklist.
#[verifier::opaque]
pub open spec fn catalog() -> Seq<MultiplierDefinition> {
    us_rows() + canadian_rows() + other_rows()
}

fn us_list() -> (r: Vec<MultiplierDefinition>)
    ensures
        r@ == us_rows(),
{
    let v = vec![
        MultiplierDefinition {
            id: "AL",
            code: "AL",
            display_name: "Alabama",
            group: MultiplierGroup::UsDc,
        },
        MultiplierDefinition {
            id: "AK",
            code: "AK",
            display_name: "Alaska",
            group: MultiplierGroup::UsDc,
        },
        MultiplierDefinition {
            id: "AZ",
            code: "AZ",
            display_name: "Arizona",
            group: MultiplierGroup::UsDc,
        },
        MultiplierDefinition {
            id: "AR",
            code: "AR",
            display_name: "Arkansas",
            group: MultiplierGroup::UsDc,
        },
        MultiplierDefinition {
            id: "CA",
            code: "CA",
            display_name: "California",
            group: MultiplierGroup::UsDc,
        },
        MultiplierDefinition {
            id: "CO",
            code: "CO",
            display_name: "Colorado",
            group: MultiplierGroup::UsDc,
        },
        MultiplierDefinition {
            id: "CT",
            code: "CT",
            display_name: "Connecticut",
            group: MultiplierGroup::UsDc,
        },
        MultiplierDefinition {
            id: "DE",
            code: "DE",
            display_name: "Delaware",
            group: MultiplierGroup::UsDc,
        },
        MultiplierDefinition {
            id: "FL",
            code: "FL",
            display_name: "Florida",
            group: MultiplierGroup::UsDc,
        },
        MultiplierDefinition {
            id: "GA",
            code: "GA",
            display_name: "Georgia",
            group: MultiplierGroup::UsDc,
        },
        MultiplierDefinition {
            id: "US-HI",
            code: "HI",
            display_name: "Hawaii",
            group: MultiplierGroup::UsDc,
        },
        MultiplierDefinition {
            id: "ID",
            code: "ID",
            display_name: "Idaho",
            group: MultiplierGroup::UsDc,
        },
        MultiplierDefinition {
            id: "IL",
            code: "IL",
            display_name: "Illinois",
            group: MultiplierGroup::UsDc,
        },
        MultiplierDefinition {
            id: "IN",
            code: "IN",
            display_name: "Indiana",
            group: MultiplierGroup::UsDc,
        },
        MultiplierDefinition {
            id: "IA",
            code: "IA",
            display_name: "Iowa",
            group: MultiplierGroup::UsDc,
        },
        MultiplierDefinition {
            id: "KS",
            code: "KS",
            display_name: "Kansas",
            group: MultiplierGroup::UsDc,
        },
        MultiplierDefinition {
            id: "KY",
            code: "KY",
            display_name: "Kentucky",
            group: MultiplierGroup::UsDc,
        },
        MultiplierDefinition {
            id: "LA",
            code: "LA",
            display_name: "Louisiana",
            group: MultiplierGroup::UsDc,
        },
        MultiplierDefinition {
            id: "ME",
            code: "ME",
            display_name: "Maine",
            group: MultiplierGroup::UsDc,
        },
        MultiplierDefinition {
            id: "MD",
            code: "MD",
            display_name: "Maryland",
            group: MultiplierGroup::UsDc,
        },
        MultiplierDefinition {
            id: "MA",
            code: "MA",
            display_name: "Massachusetts",
            group: MultiplierGroup::UsDc,
        },
        MultiplierDefinition {
            id: "MI",
            code: "MI",
            display_name: "Michigan",
            group: MultiplierGroup::UsDc,
        },
        MultiplierDefinition {
            id: "MN",
            code: "MN",
            display_name: "Minnesota",
            group: MultiplierGroup::UsDc,
        },
        MultiplierDefinition {
            id: "MS",
            code: "MS",
            display_name: "Mississippi",
            group: MultiplierGroup::UsDc,
        },
        MultiplierDefinition {
            id: "MO",
            code: "MO",
            display_name: "Missouri",
            group: MultiplierGroup::UsDc,
        },
        MultiplierDefinition {
            id: "MT",
            code: "MT",
            display_name: "Montana",
            group: MultiplierGroup::UsDc,
        },
        MultiplierDefinition {
            id: "NE",
            code: "NE",
            display_name: "Nebraska",
            group: MultiplierGroup::UsDc,
        },
        MultiplierDefinition {
            id: "NV",
            code: "NV",
            display_name: "Nevada",
            group: MultiplierGroup::UsDc,
        },
        MultiplierDefinition {
            id: "NH",
            code: "NH",
            display_name: "New Hampshire",
            group: MultiplierGroup::UsDc,
        },
        MultiplierDefinition {
            id: "NJ",
            code: "NJ",
            display_name: "New Jersey",
            group: MultiplierGroup::UsDc,
        },
        MultiplierDefinition {
            id: "NM",
            code: "NM",
            display_name: "New Mexico",
            group: MultiplierGroup::UsDc,
        },
        MultiplierDefinition {
            id: "NY",
            code: "NY",
            display_name: "New York",
            group: MultiplierGroup::UsDc,
        },
        MultiplierDefinition {
            id: "NC",
            code: "NC",
            display_name: "North Carolina",
            group: MultiplierGroup::UsDc,
        },
        MultiplierDefinition {
            id: "ND",
            code: "ND",
            display_name: "North Dakota",
            group: MultiplierGroup::UsDc,
        },
        MultiplierDefinition {
            id: "OH",
            code: "OH",
            display_name: "Ohio",
            group: MultiplierGroup::UsDc,
        },
        MultiplierDefinition {
            id: "OK",
            code: "OK",
            display_name: "Oklahoma",
            group: MultiplierGroup::UsDc,
        },
        MultiplierDefinition {
            id: "OR",
            code: "OR",
            display_name: "Oregon",
            group: MultiplierGroup::UsDc,
        },
        MultiplierDefinition {
            id: "PA",
            code: "PA",
            display_name: "Pennsylvania",
            group: MultiplierGroup::UsDc,
        },
        MultiplierDefinition {
            id: "RI",
            code: "RI",
            display_name: "Rhode Island",
            group: MultiplierGroup::UsDc,
        },
        MultiplierDefinition {
            id: "SC",
            code: "SC",
            display_name: "South Carolina",
            group: MultiplierGroup::UsDc,
        },
        MultiplierDefinition {
            id: "SD",
            code: "SD",
            display_name: "South Dakota",
            group: MultiplierGroup::UsDc,
        },
        MultiplierDefinition {
            id: "TN",
            code: "TN",
            display_name: "Tennessee",
            group: MultiplierGroup::UsDc,
        },
        MultiplierDefinition {
            id: "TX",
            code: "TX",
            display_name: "Texas",
            group: MultiplierGroup::UsDc,
        },
        MultiplierDefinition {
            id: "UT",
            code: "UT",
            display_name: "Utah",
            group: MultiplierGroup::UsDc,
        },
        MultiplierDefinition {
            id: "VT",
            code: "VT",
            display_name: "Vermont",
            group: MultiplierGroup::UsDc,
        },
        MultiplierDefinition {
            id: "VA",
            code: "VA",
            display_name: "Virginia",
            group: MultiplierGroup::UsDc,
        },
        MultiplierDefinition {
            id: "WA",
            code: "WA",
            display_name: "Washington",
            group: MultiplierGroup::UsDc,
        },
        MultiplierDefinition {
            id: "WV",
            code: "WV",
            display_name: "West Virginia",
            group: MultiplierGroup::UsDc,
        },
        MultiplierDefinition {
            id: "WI",
            code: "WI",
            display_name: "Wisconsin",
            group: MultiplierGroup::UsDc,
        },
        MultiplierDefinition {
            id: "WY",
            code: "WY",
            display_name: "Wyoming",
            group: MultiplierGroup::UsDc,
        },
        MultiplierDefinition {
            id: "DC",
            code: "DC",
            display_name: "District of Columbia",
            group: MultiplierGroup::UsDc,
        },
    ];
    proof {
        reveal(us_rows);
    }
    assert(v@ =~= us_rows());
    v
}

fn canadian_list() -> (r: Vec<MultiplierDefinition>)
    ensures
        r@ == canadian_rows(),
{
    let v = vec![
        MultiplierDefinition {
            id: "AB",
            code: "AB",
            display_name: "Alberta",
            group: MultiplierGroup::Canada,
        },
        MultiplierDefinition {
            id: "BC",
            code: "BC",
            display_name: "British Columbia",
            group: MultiplierGroup::Canada,
        },
        MultiplierDefinition {
            id: "MB",
            code: "MB",
            display_name: "Manitoba",
            group: MultiplierGroup::Canada,
        },
        MultiplierDefinition {
            id: "NB",
            code: "NB",
            display_name: "New Brunswick",
            group: MultiplierGroup::Canada,
        },
        MultiplierDefinition {
            id: "NL",
            code: "NL",
            display_name: "Newfoundland and Labrador",
            group: MultiplierGroup::Canada,
        },
        MultiplierDefinition {
            id: "NS",
            code: "NS",
            display_name: "Nova Scotia",
            group: MultiplierGroup::Canada,
        },
        MultiplierDefinition {
            id: "NT",
            code: "NT",
            display_name: "Northwest Territories",
            group: MultiplierGroup::Canada,
        },
        MultiplierDefinition {
            id: "NU",
            code: "NU",
            display_name: "Nunavut",
            group: MultiplierGroup::Canada,
        },
        MultiplierDefinition {
            id: "ON",
            code: "ON",
            display_name: "Ontario",
            group: MultiplierGroup::Canada,
        },
        MultiplierDefinition {
            id: "PE",
            code: "PE",
            display_name: "Prince Edward Island",
            group: MultiplierGroup::Canada,
        },
        MultiplierDefinition {
            id: "QC",
            code: "QC",
            display_name: "Quebec",
            group: MultiplierGroup::Canada,
        },
        MultiplierDefinition {
            id: "SK",
            code: "SK",
            display_name: "Saskatchewan",
            group: MultiplierGroup::Canada,
        },
        MultiplierDefinition {
            id: "YT",
            code: "YT",
            display_name: "Yukon",
            group: MultiplierGroup::Canada,
        },
    ];
    proof {
        reveal(canadian_rows);
    }
    assert(v@ =~= canadian_rows());
    v
}

fn other_list() -> (r: Vec<MultiplierDefinition>)
    ensures
        r@ == other_rows(),
{
    let v = vec![
        MultiplierDefinition {
            id: "4U1U",
            code: "4U1U",
            display_name: "United Nations Headquarters",
            group: MultiplierGroup::OtherNorthAmerica,
        },
        MultiplierDefinition {
            id: "6Y",
            code: "6Y",
            display_name: "Jamaica",
            group: MultiplierGroup::OtherNorthAmerica,
        },
        MultiplierDefinition {
            id: "8P",
            code: "8P",
            display_name: "Barbados",
            group: MultiplierGroup::OtherNorthAmerica,
        },
        MultiplierDefinition {
            id: "C6",
            code: "C6",
            display_name: "Bahamas",
            group: MultiplierGroup::OtherNorthAmerica,
        },
        MultiplierDefinition {
            id: "CM",
            code: "CM",
            display_name: "Cuba",
            group: MultiplierGroup::OtherNorthAmerica,
        },
        MultiplierDefinition {
            id: "CY9",
            code: "CY9",
            display_name: "Saint Paul Island",
            group: MultiplierGroup::OtherNorthAmerica,
        },
        MultiplierDefinition {
            id: "CY0",
            code: "CY0",
            display_name: "Sable Island",
            group: MultiplierGroup::OtherNorthAmerica,
        },
        MultiplierDefinition {
            id: "FG",
            code: "FG",
            display_name: "Guadeloupe",
            group: MultiplierGroup::OtherNorthAmerica,
        },
        MultiplierDefinition {
            id: "FJ",
            code: "FJ",
            display_name: "Saint Barthelemy",
            group: MultiplierGroup::OtherNorthAmerica,
        },
        MultiplierDefinition {
            id: "FM",
            code: "FM",
            display_name: "Martinique",
            group: MultiplierGroup::OtherNorthAmerica,
        },
        MultiplierDefinition {
            id: "FO",
            code: "FO",
            display_name: "Clipperton Island",
            group: MultiplierGroup::OtherNorthAmerica,
        },
        MultiplierDefinition {
            id: "FP",
            code: "FP",
            display_name: "Saint Pierre and Miquelon",
            group: MultiplierGroup::OtherNorthAmerica,
        },
        MultiplierDefinition {
            id: "FS",
            code: "FS",
            display_name: "Saint Martin",
            group: MultiplierGroup::OtherNorthAmerica,
        },
        MultiplierDefinition {
            id: "HH",
            code: "HH",
            display_name: "Haiti",
            group: MultiplierGroup::OtherNorthAmerica,
        },
        MultiplierDefinition {
            id: "DXCC-HI",
            code: "HI",
            display_name: "Dominican Republic",
            group: MultiplierGroup::OtherNorthAmerica,
        },
        MultiplierDefinition {
            id: "HK0",
            code: "HK0",
            display_name: "San Andres and Providencia",
            group: MultiplierGroup::OtherNorthAmerica,
        },
        MultiplierDefinition {
            id: "HP",
            code: "HP",
            display_name: "Panama",
            group: MultiplierGroup::OtherNorthAmerica,
        },
        MultiplierDefinition {
            id: "HR",
            code: "HR",
            display_name: "Honduras",
            group: MultiplierGroup::OtherNorthAmerica,
        },
        MultiplierDefinition {
            id: "J3",
            code: "J3",
            display_name: "Grenada",
            group: MultiplierGroup::OtherNorthAmerica,
        },
        MultiplierDefinition {
            id: "J6",
            code: "J6",
            display_name: "Saint Lucia",
            group: MultiplierGroup::OtherNorthAmerica,
        },
        MultiplierDefinition {
            id: "J7",
            code: "J7",
            display_name: "Dominica",
            group: MultiplierGroup::OtherNorthAmerica,
        },
        MultiplierDefinition {
            id: "J8",
            code: "J8",
            display_name: "Saint Vincent",
            group: MultiplierGroup::OtherNorthAmerica,
        },
        MultiplierDefinition {
            id: "KG4",
            code: "KG4",
            display_name: "Guantanamo Bay",
            group: MultiplierGroup::OtherNorthAmerica,
        },
        MultiplierDefinition {
            id: "KP1",
            code: "KP1",
            display_name: "Navassa Island",
            group: MultiplierGroup::OtherNorthAmerica,
        },
        MultiplierDefinition {
            id: "KP2",
            code: "KP2",
            display_name: "US Virgin Islands",
            group: MultiplierGroup::OtherNorthAmerica,
        },
        MultiplierDefinition {
            id: "KP4",
            code: "KP4",
            display_name: "Puerto Rico",
            group: MultiplierGroup::OtherNorthAmerica,
        },
        MultiplierDefinition {
            id: "KP5",
            code: "KP5",
            display_name: "Desecheo Island",
            group: MultiplierGroup::OtherNorthAmerica,
        },
        MultiplierDefinition {
            id: "OX",
            code: "OX",
            display_name: "Greenland",
            group: MultiplierGroup::OtherNorthAmerica,
        },
        MultiplierDefinition {
            id: "PJ5",
            code: "PJ5",
            display_name: "Saba and Saint Eustatius",
            group: MultiplierGroup::OtherNorthAmerica,
        },
        MultiplierDefinition {
            id: "PJ7",
            code: "PJ7",
            display_name: "Sint Maarten",
            group: MultiplierGroup::OtherNorthAmerica,
        },
        MultiplierDefinition {
            id: "TG",
            code: "TG",
            display_name: "Guatemala",
            group: MultiplierGroup::OtherNorthAmerica,
        },
        MultiplierDefinition {
            id: "TI",
            code: "TI",
            display_name: "Costa Rica",
            group: MultiplierGroup::OtherNorthAmerica,
        },
        MultiplierDefinition {
            id: "TI9",
            code: "TI9",
            display_name: "Cocos Island",
            group: MultiplierGroup::OtherNorthAmerica,
        },
        MultiplierDefinition {
            id: "V2",
            code: "V2",
            display_name: "Antigua and Barbuda",
            group: MultiplierGroup::OtherNorthAmerica,
        },
        MultiplierDefinition {
            id: "V3",
            code: "V3",
            display_name: "Belize",
            group: MultiplierGroup::OtherNorthAmerica,
        },
        MultiplierDefinition {
            id: "V4",
            code: "V4",
            display_name: "Saint Kitts and Nevis",
            group: MultiplierGroup::OtherNorthAmerica,
        },
        MultiplierDefinition {
            id: "VP2E",
            code: "VP2E",
            display_name: "Anguilla",
            group: MultiplierGroup::OtherNorthAmerica,
        },
        MultiplierDefinition {
            id: "VP2M",
            code: "VP2M",
            display_name: "Montserrat",
            group: MultiplierGroup::OtherNorthAmerica,
        },
        MultiplierDefinition {
            id: "VP2V",
            code: "VP2V",
            display_name: "British Virgin Islands",
            group: MultiplierGroup::OtherNorthAmerica,
        },
        MultiplierDefinition {
            id: "VP5",
            code: "VP5",
            display_name: "Turks and Caicos Islands",
            group: MultiplierGroup::OtherNorthAmerica,
        },
        MultiplierDefinition {
            id: "VP9",
            code: "VP9",
            display_name: "Bermuda",
            group: MultiplierGroup::OtherNorthAmerica,
        },
        MultiplierDefinition {
            id: "XE",
            code: "XE",
            display_name: "Mexico",
            group: MultiplierGroup::OtherNorthAmerica,
        },
        MultiplierDefinition {
            id: "XF4",
            code: "XF4",
            display_name: "Revillagigedo Islands",
            group: MultiplierGroup::OtherNorthAmerica,
        },
        MultiplierDefinition {
            id: "YN",
            code: "YN",
            display_name: "Nicaragua",
            group: MultiplierGroup::OtherNorthAmerica,
        },
        MultiplierDefinition {
            id: "YS",
            code: "YS",
            display_name: "El Salvador",
            group: MultiplierGroup::OtherNorthAmerica,
        },
        MultiplierDefinition {
            id: "YV0",
            code: "YV0",
            display_name: "Aves Island",
            group: MultiplierGroup::OtherNorthAmerica,
        },
        MultiplierDefinition {
            id: "ZF",
            code: "ZF",
            display_name: "Cayman Islands",
            group: MultiplierGroup::OtherNorthAmerica,
        },
    ];
    proof {
        reveal(other_rows);
    }
    assert(v@ =~= other_rows());
    v
}

/// The lengths of the parts, and the rows that share a code.
proof fn lemma_parts()
    ensures
        us_rows().len() == 51,
        canadian_rows().len() == 13,
        other_rows().len() == 47,
        us_rows()[10].id == "US-HI",
        us_rows()[10].code == "HI",
        us_rows()[10].group == MultiplierGroup::UsDc,
        other_rows()[14].id == "DXCC-HI",
        other_rows()[14].code == "HI",
        other_rows()[14].group == MultiplierGroup::OtherNorthAmerica,
{
    reveal(us_rows);
    reveal(canadian_rows);
    reveal(other_rows);
}

/// All rows of the checklist, in its order.
pub fn multipliers() -> (r: Vec<MultiplierDefinition>)
    ensures
        r@ == catalog(),
        r@.len() == 111,
{
    let mut out = us_list();
    let mut canadian = canadian_list();
    let mut other = other_list();
    out.append(&mut canadian);
    out.append(&mut other);
    proof {
        reveal(catalog);
        lemma_parts();
    }
    assert(out@ =~= catalog());
    out
}

/// `code` is printed in the checklist.
pub open spec fn printed(code: Seq<char>) -> bool {
    exists|i: int| 0 <= i < catalog().len() && (#[trigger] catalog()[i]).code@ == code
}

/// The position of the first row with `code` from `from` on; the number of rows if there is none.
pub open spec fn position_of(code: Seq<char>, from: int) -> int
    decreases catalog().len() - from,
{
    if 0 <= from < catalog().len() {
        if catalog()[from].code@ == code {
            from
        } else {
            position_of(code, from + 1)
        }
    } else {
        catalog().len() as int
    }
}

proof fn lemma_position_of(code: Seq<char>, from: int)
    requires
        0 <= from <= catalog().len(),
    ensures
        from <= position_of(code, from) <= catalog().len(),
        position_of(code, from) < catalog().len() ==> catalog()[position_of(code, from)].code@
            == code,
        forall|i: int|
            from <= i < position_of(code, from) ==> (#[trigger] catalog()[i]).code@ != code,
    decreases catalog().len() - from,
{
    if from < catalog().len() && catalog()[from].code@ != code {
        lemma_position_of(code, from + 1);
    }
}

/// The first row with `code`.
pub open spec fn found(code: Seq<char>) -> Option<MultiplierDefinition> {
    let i = position_of(code, 0);
    if i < catalog().len() {
        Some(catalog()[i])
    } else {
        None
    }
}

/// There is a first row with a code exactly where the checklist prints it.
pub proof fn lemma_found(code: Seq<char>)
    ensures
        found(code) is Some <==> printed(code),
        found(code) matches Some(m) ==> m.code@ == code,
{
    lemma_position_of(code, 0);
    if printed(code) {
        let i = choose|i: int| 0 <= i < catalog().len() && (#[trigger] catalog()[i]).code@ == code;
        assert(!(i < position_of(code, 0)));
    }
    if found(code) is Some {
        assert(catalog()[position_of(code, 0)].code@ == code);
    }
}

/// The first row with `code`.
pub fn find(code: &str) -> (r: Option<MultiplierDefinition>)
    ensures
        r == found(code@),
{
    let all = multipliers();
    let mut i: usize = 0;
    while i < all.len()
        invariant
            i <= all@.len(),
            all@ == catalog(),
            position_of(code@, 0) == position_of(code@, i as int),
        decreases all.len() - i,
    {
        if text::same(all[i].code, code) {
            return Some(all[i]);
        }
        i = i + 1;
    }
    None
}

/// The station is Dominican: by its prefix, or by its country.
pub open spec fn dominican(call: Seq<char>, country: Option<Seq<char>>) -> bool {
    ||| text::starts_with(text::upper(text::trimmed(call)), "HI"@)
    ||| country matches Some(c) && text::has_part(text::upper(text::trimmed(c)), "DOMINICAN"@)
}

/// A text in capitals begins with a prefix of Hawaii.
pub open spec fn hawaiian_prefix(part: Seq<char>) -> bool {
    ||| text::starts_with(part, "KH6"@)
    ||| text::starts_with(part, "KH7"@)
    ||| text::starts_with(part, "AH6"@)
    ||| text::starts_with(part, "AH7"@)
    ||| text::starts_with(part, "NH6"@)
    ||| text::starts_with(part, "NH7"@)
    ||| text::starts_with(part, "WH6"@)
    ||| text::starts_with(part, "WH7"@)
}

/// A callsign in capitals has a prefix of Hawaii, at its beginning or behind a stroke.
pub open spec fn hawaiian_call(call: Seq<char>) -> bool {
    exists|i: int|
        0 <= i < call.len() && (i == 0 || call[i - 1] == '/') && hawaiian_prefix(
            #[trigger] call.skip(i),
        )
}

/// A country in capitals that is Hawaii or the United States.
pub open spec fn hawaiian_country(country: Seq<char>) -> bool {
    ||| text::has_part(country, "HAWAII"@)
    ||| country == "UNITED STATES"@
    ||| country == "UNITED STATES OF AMERICA"@
    ||| country == "USA"@
}

/// The station may be Hawaiian: by its prefix, or by its country.
pub open spec fn hawaiian(call: Seq<char>, country: Option<Seq<char>>) -> bool {
    ||| hawaiian_call(text::upper(text::trimmed(call)))
    ||| country matches Some(c) && hawaiian_country(text::upper(text::trimmed(c)))
}

/// The row that `code` means when `call` in `country` sends it. The code that Hawaii and the
/// Dominican Republic share means the one that the callsign or the country points to, and neither
/// where nothing points to either.
pub open spec fn resolved(code: Seq<char>, call: Seq<char>, country: Option<Seq<char>>) -> Option<
    MultiplierDefinition,
> {
    if code == "HI"@ {
        if dominican(call, country) {
            Some(catalog()[78])
        } else if hawaiian(call, country) {
            Some(catalog()[10])
        } else {
            None
        }
    } else {
        found(code)
    }
}

fn has_hawaiian_prefix(part: &str) -> (r: bool)
    ensures
        r == hawaiian_prefix(part@),
{
    text::begins_with(part, "KH6") || text::begins_with(part, "KH7") || text::begins_with(
        part,
        "AH6",
    ) || text::begins_with(part, "AH7") || text::begins_with(part, "NH6") || text::begins_with(
        part,
        "NH7",
    ) || text::begins_with(part, "WH6") || text::begins_with(part, "WH7")
}

fn is_hawaiian_call(call: &str) -> (r: bool)
    ensures
        r == hawaiian_call(call@),
{
    let v = text::chars_of(call);
    let mut i: usize = 0;
    while i < v.len()
        invariant
            i <= v@.len(),
            v@ == call@,
            forall|j: int|
                0 <= j < i && (j == 0 || call@[j - 1] == '/') ==> !hawaiian_prefix(
                    #[trigger] call@.skip(j),
                ),
        decreases v.len() - i,
    {
        if i == 0 || v[i - 1] == '/' {
            let part = text::string_between(&v, i, v.len());
            assert(part@ =~= call@.skip(i as int));
            if has_hawaiian_prefix(part.as_str()) {
                return true;
            }
        }
        i = i + 1;
    }
    false
}

pub fn resolve(code: &str, call: &str, country: Option<&str>) -> (r: Option<MultiplierDefinition>)
    ensures
        r == resolved(code@, call@, text::opt_str(country)),
{
    if !text::same(code, "HI") {
        return find(code);
    }
    let called = text::trim_upper(call);
    let (dominican_country, hawaiian_country) = match country {
        Some(c) => {
            let name = text::trim_upper(c);
            (
                text::contains(name.as_str(), "DOMINICAN"),
                text::contains(name.as_str(), "HAWAII") || text::same(
                    name.as_str(),
                    "UNITED STATES",
                ) || text::same(name.as_str(), "UNITED STATES OF AMERICA") || text::same(
                    name.as_str(),
                    "USA",
                ),
            )
        },
        None => (false, false),
    };
    let all = multipliers();
    if text::begins_with(called.as_str(), "HI") || dominican_country {
        Some(all[78])
    } else if is_hawaiian_call(called.as_str()) || hawaiian_country {
        Some(all[10])
    } else {
        None
    }
}

/// Hawaii and the Dominican Republic share a printed code and are two rows all the same. Each is
/// meant only where the callsign or the country points to it; where nothing points to either, the
/// code means neither.
pub proof fn law_shared_code_is_two_rows(call: Seq<char>, country: Option<Seq<char>>)
    ensures
        catalog()[10].id@ == "US-HI"@,
        catalog()[10].group == MultiplierGroup::UsDc,
        catalog()[78].id@ == "DXCC-HI"@,
        catalog()[78].group == MultiplierGroup::OtherNorthAmerica,
        catalog()[10].code@ == "HI"@,
        catalog()[78].code@ == "HI"@,
        catalog()[10].id@ != catalog()[78].id@,
        resolved("HI"@, call, country) == Some(catalog()[78]) <==> dominican(call, country),
        resolved("HI"@, call, country) == Some(catalog()[10]) <==> hawaiian(call, country)
            && !dominican(call, country),
        resolved("HI"@, call, country) is None <==> !hawaiian(call, country) && !dominican(
            call,
            country,
        ),
{
    reveal(catalog);
    lemma_parts();
    reveal_strlit("US-HI");
    reveal_strlit("DXCC-HI");
    assert("US-HI"@.len() != "DXCC-HI"@.len());
}

/// A code that is resolved is one that the checklist prints, and the row has that code.
pub proof fn law_resolved_rows_are_printed(
    code: Seq<char>,
    call: Seq<char>,
    country: Option<Seq<char>>,
)
    ensures
        resolved(code, call, country) matches Some(m) ==> printed(code) && m.code@ == code
            && exists|i: int| 0 <= i < catalog().len() && #[trigger] catalog()[i] == m,
        resolved(code, call, country) is None ==> !printed(code) || code == "HI"@,
{
    lemma_found(code);
    lemma_position_of(code, 0);
    law_shared_code_is_two_rows(call, country);
    lemma_catalog_len();
}

pub proof fn lemma_catalog_len()
    ensures
        catalog().len() == 111,
{
    reveal(catalog);
    lemma_parts();
}

// ---------------------------------------------------------------------------------------------
// The rows are told apart by their identifiers
// ---------------------------------------------------------------------------------------------
/// A number made of the length and the first four characters of a text.
spec fn signature(s: Seq<char>) -> int {
    s.len() + 8 * letter_at(s, 0) + 2048 * letter_at(s, 1) + 524288 * letter_at(s, 2) + 134217728
        * letter_at(s, 3)
}

spec fn letter_at(s: Seq<char>, i: int) -> int {
    if i < s.len() {
        s[i] as int
    } else {
        0
    }
}

/// A text of capitals and digits.
pub open spec fn plain(s: Seq<char>) -> bool {
    s.len() > 0 && forall|i: int|
        0 <= i < s.len() ==> ('A' <= #[trigger] s[i] <= 'Z' || '0' <= s[i] <= '9')
}

/// The row that an identifier of signature `k` stands in.
spec fn row_of(k: int) -> int {
    if k == 156170 {
        0
    } else if k == 154122 {
        1
    } else if k == 184842 {
        2
    } else if k == 168458 {
        3
    } else if k == 133658 {
        4
    } else if k == 162330 {
        5
    } else if k == 172570 {
        6
    } else if k == 141858 {
        7
    } else if k == 156210 {
        8
    } else if k == 133690 {
        9
    } else if k == 9687440045 {
        10
    } else if k == 139850 {
        11
    } else if k == 156234 {
        12
    } else if k == 160330 {
        13
    } else if k == 133706 {
        14
    } else if k == 170586 {
        15
    } else if k == 182874 {
        16
    } else if k == 133730 {
        17
    } else if k == 141930 {
        18
    } else if k == 139882 {
        19
    } else if k == 133738 {
        20
    } else if k == 150122 {
        21
    } else if k == 160362 {
        22
    } else if k == 170602 {
        23
    } else if k == 162410 {
        24
    } else if k == 172650 {
        25
    } else if k == 141938 {
        26
    } else if k == 176754 {
        27
    } else if k == 148082 {
        28
    } else if k == 152178 {
        29
    } else if k == 158322 {
        30
    } else if k == 182898 {
        31
    } else if k == 137842 {
        32
    } else if k == 139890 {
        33
    } else if k == 148090 {
        34
    } else if k == 154234 {
        35
    } else if k == 168570 {
        36
    } else if k == 133762 {
        37
    } else if k == 150162 {
        38
    } else if k == 137882 {
        39
    } else if k == 139930 {
        40
    } else if k == 160418 {
        41
    } else if k == 180898 {
        42
    } else if k == 172714 {
        43
    } else if k == 172722 {
        44
    } else if k == 133810 {
        45
    } else if k == 133818 {
        46
    } else if k == 176826 {
        47
    } else if k == 150202 {
        48
    } else if k == 182970 {
        49
    } else if k == 137762 {
        50
    } else if k == 135690 {
        51
    } else if k == 137746 {
        52
    } else if k == 135786 {
        53
    } else if k == 135794 {
        54
    } else if k == 156274 {
        55
    } else if k == 170610 {
        56
    } else if k == 172658 {
        57
    } else if k == 174706 {
        58
    } else if k == 160378 {
        59
    } else if k == 141954 {
        60
    } else if k == 137866 {
        61
    } else if k == 154266 {
        62
    } else if k == 172746 {
        63
    } else if k == 11434371492 {
        64
    } else if k == 182706 {
        65
    } else if k == 164290 {
        66
    } else if k == 111130 {
        67
    } else if k == 158234 {
        68
    } else if k == 30067227 {
        69
    } else if k == 25348635 {
        70
    } else if k == 145970 {
        71
    } else if k == 152114 {
        72
    } else if k == 158258 {
        73
    } else if k == 162354 {
        74
    } else if k == 164402 {
        75
    } else if k == 170546 {
        76
    } else if k == 148034 {
        77
    } else if k == 9027895847 {
        78
    } else if k == 25320003 {
        79
    } else if k == 164418 {
        80
    } else if k == 168514 {
        81
    } else if k == 105042 {
        82
    } else if k == 111186 {
        83
    } else if k == 113234 {
        84
    } else if k == 115282 {
        85
    } else if k == 27408987 {
        86
    } else if k == 25854555 {
        87
    } else if k == 26378843 {
        88
    } else if k == 27427419 {
        89
    } else if k == 27951707 {
        90
    } else if k == 180858 {
        91
    } else if k == 27939459 {
        92
    } else if k == 28988035 {
        93
    } else if k == 146082 {
        94
    } else if k == 150178 {
        95
    } else if k == 30034595 {
        96
    } else if k == 103090 {
        97
    } else if k == 105138 {
        98
    } else if k == 107186 {
        99
    } else if k == 9287402164 {
        100
    } else if k == 10361143988 {
        101
    } else if k == 11569103540 {
        102
    } else if k == 27951795 {
        103
    } else if k == 30048947 {
        104
    } else if k == 142018 {
        105
    } else if k == 27407043 {
        106
    } else if k == 160458 {
        107
    } else if k == 170698 {
        108
    } else if k == 25342667 {
        109
    } else if k == 144082 {
        110
    } else {
        -1
    }
}

proof fn lemma_us_rows(i: int)
    requires
        0 <= i < us_rows().len(),
    ensures
        row_of(signature(us_rows()[i].id@)) == i + 0,
        i != 10 ==> us_rows()[i].code == us_rows()[i].id && plain(us_rows()[i].id@),
{
    reveal(us_rows);
    lemma_parts();
    let id = us_rows()[i].id@;
    if i == 0 {
        reveal_strlit("AL");
        assert(signature(id) == 156170);
    } else if i == 1 {
        reveal_strlit("AK");
        assert(signature(id) == 154122);
    } else if i == 2 {
        reveal_strlit("AZ");
        assert(signature(id) == 184842);
    } else if i == 3 {
        reveal_strlit("AR");
        assert(signature(id) == 168458);
    } else if i == 4 {
        reveal_strlit("CA");
        assert(signature(id) == 133658);
    } else if i == 5 {
        reveal_strlit("CO");
        assert(signature(id) == 162330);
    } else if i == 6 {
        reveal_strlit("CT");
        assert(signature(id) == 172570);
    } else if i == 7 {
        reveal_strlit("DE");
        assert(signature(id) == 141858);
    } else if i == 8 {
        reveal_strlit("FL");
        assert(signature(id) == 156210);
    } else if i == 9 {
        reveal_strlit("GA");
        assert(signature(id) == 133690);
    } else if i == 10 {
        reveal_strlit("US-HI");
        assert(signature(id) == 9687440045);
    } else if i == 11 {
        reveal_strlit("ID");
        assert(signature(id) == 139850);
    } else if i == 12 {
        reveal_strlit("IL");
        assert(signature(id) == 156234);
    } else if i == 13 {
        reveal_strlit("IN");
        assert(signature(id) == 160330);
    } else if i == 14 {
        reveal_strlit("IA");
        assert(signature(id) == 133706);
    } else if i == 15 {
        reveal_strlit("KS");
        assert(signature(id) == 170586);
    } else if i == 16 {
        reveal_strlit("KY");
        assert(signature(id) == 182874);
    } else if i == 17 {
        reveal_strlit("LA");
        assert(signature(id) == 133730);
    } else if i == 18 {
        reveal_strlit("ME");
        assert(signature(id) == 141930);
    } else if i == 19 {
        reveal_strlit("MD");
        assert(signature(id) == 139882);
    } else if i == 20 {
        reveal_strlit("MA");
        assert(signature(id) == 133738);
    } else if i == 21 {
        reveal_strlit("MI");
        assert(signature(id) == 150122);
    } else if i == 22 {
        reveal_strlit("MN");
        assert(signature(id) == 160362);
    } else if i == 23 {
        reveal_strlit("MS");
        assert(signature(id) == 170602);
    } else if i == 24 {
        reveal_strlit("MO");
        assert(signature(id) == 162410);
    } else if i == 25 {
        reveal_strlit("MT");
        assert(signature(id) == 172650);
    } else if i == 26 {
        reveal_strlit("NE");
        assert(signature(id) == 141938);
    } else if i == 27 {
        reveal_strlit("NV");
        assert(signature(id) == 176754);
    } else if i == 28 {
        reveal_strlit("NH");
        assert(signature(id) == 148082);
    } else if i == 29 {
        reveal_strlit("NJ");
        assert(signature(id) == 152178);
    } else if i == 30 {
        reveal_strlit("NM");
        assert(signature(id) == 158322);
    } else if i == 31 {
        reveal_strlit("NY");
        assert(signature(id) == 182898);
    } else if i == 32 {
        reveal_strlit("NC");
        assert(signature(id) == 137842);
    } else if i == 33 {
        reveal_strlit("ND");
        assert(signature(id) == 139890);
    } else if i == 34 {
        reveal_strlit("OH");
        assert(signature(id) == 148090);
    } else if i == 35 {
        reveal_strlit("OK");
        assert(signature(id) == 154234);
    } else if i == 36 {
        reveal_strlit("OR");
        assert(signature(id) == 168570);
    } else if i == 37 {
        reveal_strlit("PA");
        assert(signature(id) == 133762);
    } else if i == 38 {
        reveal_strlit("RI");
        assert(signature(id) == 150162);
    } else if i == 39 {
        reveal_strlit("SC");
        assert(signature(id) == 137882);
    } else if i == 40 {
        reveal_strlit("SD");
        assert(signature(id) == 139930);
    } else if i == 41 {
        reveal_strlit("TN");
        assert(signature(id) == 160418);
    } else if i == 42 {
        reveal_strlit("TX");
        assert(signature(id) == 180898);
    } else if i == 43 {
        reveal_strlit("UT");
        assert(signature(id) == 172714);
    } else if i == 44 {
        reveal_strlit("VT");
        assert(signature(id) == 172722);
    } else if i == 45 {
        reveal_strlit("VA");
        assert(signature(id) == 133810);
    } else if i == 46 {
        reveal_strlit("WA");
        assert(signature(id) == 133818);
    } else if i == 47 {
        reveal_strlit("WV");
        assert(signature(id) == 176826);
    } else if i == 48 {
        reveal_strlit("WI");
        assert(signature(id) == 150202);
    } else if i == 49 {
        reveal_strlit("WY");
        assert(signature(id) == 182970);
    } else if i == 50 {
        reveal_strlit("DC");
        assert(signature(id) == 137762);
    }
}

proof fn lemma_canadian_rows(i: int)
    requires
        0 <= i < canadian_rows().len(),
    ensures
        row_of(signature(canadian_rows()[i].id@)) == i + 51,
        canadian_rows()[i].code == canadian_rows()[i].id && plain(canadian_rows()[i].id@),
{
    reveal(canadian_rows);
    lemma_parts();
    let id = canadian_rows()[i].id@;
    if i == 0 {
        reveal_strlit("AB");
        assert(signature(id) == 135690);
    } else if i == 1 {
        reveal_strlit("BC");
        assert(signature(id) == 137746);
    } else if i == 2 {
        reveal_strlit("MB");
        assert(signature(id) == 135786);
    } else if i == 3 {
        reveal_strlit("NB");
        assert(signature(id) == 135794);
    } else if i == 4 {
        reveal_strlit("NL");
        assert(signature(id) == 156274);
    } else if i == 5 {
        reveal_strlit("NS");
        assert(signature(id) == 170610);
    } else if i == 6 {
        reveal_strlit("NT");
        assert(signature(id) == 172658);
    } else if i == 7 {
        reveal_strlit("NU");
        assert(signature(id) == 174706);
    } else if i == 8 {
        reveal_strlit("ON");
        assert(signature(id) == 160378);
    } else if i == 9 {
        reveal_strlit("PE");
        assert(signature(id) == 141954);
    } else if i == 10 {
        reveal_strlit("QC");
        assert(signature(id) == 137866);
    } else if i == 11 {
        reveal_strlit("SK");
        assert(signature(id) == 154266);
    } else if i == 12 {
        reveal_strlit("YT");
        assert(signature(id) == 172746);
    }
}

proof fn lemma_other_rows(i: int)
    requires
        0 <= i < other_rows().len(),
    ensures
        row_of(signature(other_rows()[i].id@)) == i + 64,
        i != 14 ==> other_rows()[i].code == other_rows()[i].id && plain(other_rows()[i].id@),
{
    reveal(other_rows);
    lemma_parts();
    let id = other_rows()[i].id@;
    if i == 0 {
        reveal_strlit("4U1U");
        assert(signature(id) == 11434371492);
    } else if i == 1 {
        reveal_strlit("6Y");
        assert(signature(id) == 182706);
    } else if i == 2 {
        reveal_strlit("8P");
        assert(signature(id) == 164290);
    } else if i == 3 {
        reveal_strlit("C6");
        assert(signature(id) == 111130);
    } else if i == 4 {
        reveal_strlit("CM");
        assert(signature(id) == 158234);
    } else if i == 5 {
        reveal_strlit("CY9");
        assert(signature(id) == 30067227);
    } else if i == 6 {
        reveal_strlit("CY0");
        assert(signature(id) == 25348635);
    } else if i == 7 {
        reveal_strlit("FG");
        assert(signature(id) == 145970);
    } else if i == 8 {
        reveal_strlit("FJ");
        assert(signature(id) == 152114);
    } else if i == 9 {
        reveal_strlit("FM");
        assert(signature(id) == 158258);
    } else if i == 10 {
        reveal_strlit("FO");
        assert(signature(id) == 162354);
    } else if i == 11 {
        reveal_strlit("FP");
        assert(signature(id) == 164402);
    } else if i == 12 {
        reveal_strlit("FS");
        assert(signature(id) == 170546);
    } else if i == 13 {
        reveal_strlit("HH");
        assert(signature(id) == 148034);
    } else if i == 14 {
        reveal_strlit("DXCC-HI");
        assert(signature(id) == 9027895847);
    } else if i == 15 {
        reveal_strlit("HK0");
        assert(signature(id) == 25320003);
    } else if i == 16 {
        reveal_strlit("HP");
        assert(signature(id) == 164418);
    } else if i == 17 {
        reveal_strlit("HR");
        assert(signature(id) == 168514);
    } else if i == 18 {
        reveal_strlit("J3");
        assert(signature(id) == 105042);
    } else if i == 19 {
        reveal_strlit("J6");
        assert(signature(id) == 111186);
    } else if i == 20 {
        reveal_strlit("J7");
        assert(signature(id) == 113234);
    } else if i == 21 {
        reveal_strlit("J8");
        assert(signature(id) == 115282);
    } else if i == 22 {
        reveal_strlit("KG4");
        assert(signature(id) == 27408987);
    } else if i == 23 {
        reveal_strlit("KP1");
        assert(signature(id) == 25854555);
    } else if i == 24 {
        reveal_strlit("KP2");
        assert(signature(id) == 26378843);
    } else if i == 25 {
        reveal_strlit("KP4");
        assert(signature(id) == 27427419);
    } else if i == 26 {
        reveal_strlit("KP5");
        assert(signature(id) == 27951707);
    } else if i == 27 {
        reveal_strlit("OX");
        assert(signature(id) == 180858);
    } else if i == 28 {
        reveal_strlit("PJ5");
        assert(signature(id) == 27939459);
    } else if i == 29 {
        reveal_strlit("PJ7");
        assert(signature(id) == 28988035);
    } else if i == 30 {
        reveal_strlit("TG");
        assert(signature(id) == 146082);
    } else if i == 31 {
        reveal_strlit("TI");
        assert(signature(id) == 150178);
    } else if i == 32 {
        reveal_strlit("TI9");
        assert(signature(id) == 30034595);
    } else if i == 33 {
        reveal_strlit("V2");
        assert(signature(id) == 103090);
    } else if i == 34 {
        reveal_strlit("V3");
        assert(signature(id) == 105138);
    } else if i == 35 {
        reveal_strlit("V4");
        assert(signature(id) == 107186);
    } else if i == 36 {
        reveal_strlit("VP2E");
        assert(signature(id) == 9287402164);
    } else if i == 37 {
        reveal_strlit("VP2M");
        assert(signature(id) == 10361143988);
    } else if i == 38 {
        reveal_strlit("VP2V");
        assert(signature(id) == 11569103540);
    } else if i == 39 {
        reveal_strlit("VP5");
        assert(signature(id) == 27951795);
    } else if i == 40 {
        reveal_strlit("VP9");
        assert(signature(id) == 30048947);
    } else if i == 41 {
        reveal_strlit("XE");
        assert(signature(id) == 142018);
    } else if i == 42 {
        reveal_strlit("XF4");
        assert(signature(id) == 27407043);
    } else if i == 43 {
        reveal_strlit("YN");
        assert(signature(id) == 160458);
    } else if i == 44 {
        reveal_strlit("YS");
        assert(signature(id) == 170698);
    } else if i == 45 {
        reveal_strlit("YV0");
        assert(signature(id) == 25342667);
    } else if i == 46 {
        reveal_strlit("ZF");
        assert(signature(id) == 144082);
    }
}

/// The 111 rows have 111 identifiers.
pub proof fn law_row_ids_are_distinct(i: int, j: int)
    requires
        0 <= i < catalog().len(),
        0 <= j < catalog().len(),
    ensures
        catalog().len() == 111,
        catalog()[i].id@ == catalog()[j].id@ ==> i == j,
{
    lemma_catalog_len();
    lemma_row_signature(i);
    lemma_row_signature(j);
}

/// The 111 rows have 110 codes: only Hawaii and the Dominican Republic share one.
pub proof fn law_one_code_is_shared(i: int, j: int)
    requires
        0 <= i < j < catalog().len(),
    ensures
        catalog()[i].code@ == catalog()[j].code@ <==> i == 10 && j == 78,
{
    lemma_row_signature(i);
    lemma_row_signature(j);
    law_shared_code_is_two_rows(Seq::empty(), None);
    reveal_strlit("HI");
    assert(signature("HI"@) == 150082);
    assert(row_of(150082) == -1);
}

/// The word for stations outside North America is no code of the checklist.
pub proof fn law_dx_is_not_printed()
    ensures
        !printed("DX"@),
{
    reveal_strlit("DX");
    reveal_strlit("HI");
    assert(signature("DX"@) == 180770);
    assert(row_of(180770) == -1);
    law_shared_code_is_two_rows(Seq::empty(), None);
    assert forall|i: int| 0 <= i < catalog().len() implies (#[trigger] catalog()[i]).code@ != "DX"@ by {
        lemma_row_signature(i);
        assert("HI"@[0] != "DX"@[0]);
    }
}

/// A code of the checklist is made of capitals and digits.
pub proof fn law_codes_are_plain(i: int)
    requires
        0 <= i < catalog().len(),
    ensures
        plain(catalog()[i].code@),
{
    lemma_row_signature(i);
    law_shared_code_is_two_rows(Seq::empty(), None);
    reveal_strlit("HI");
}

/// A text whose signature is that of no row, and that is longer than two characters or begins with
/// another letter than the shared code, is not printed.
proof fn lemma_not_printed(code: Seq<char>)
    requires
        row_of(signature(code)) == -1,
        code.len() != 2 || code[0] != 'H',
    ensures
        !printed(code),
{
    law_shared_code_is_two_rows(Seq::empty(), None);
    reveal_strlit("HI");
    assert forall|i: int| 0 <= i < catalog().len() implies (#[trigger] catalog()[i]).code@ != code by {
        lemma_row_signature(i);
    }
}

/// The other spellings of codes are no codes of the checklist themselves.
pub proof fn lemma_other_spellings_are_not_printed()
    ensures
        !printed("NFLD"@),
        !printed("NF"@),
        !printed("NWT"@),
        !printed("QUE"@),
        !printed("PQ"@),
        !printed("PEI"@),
        !printed("YUK"@),
        !printed("MEX"@),
        !printed("MEXICO"@),
        !printed("4U1UN"@),
        !printed("4U1/U"@),
{
    reveal_strlit("NFLD");
    assert(signature("NFLD"@) == 9166795380);
    lemma_not_printed("NFLD"@);
    reveal_strlit("NF");
    assert(signature("NF"@) == 143986);
    lemma_not_printed("NF"@);
    reveal_strlit("NWT");
    assert(signature("NWT"@) == 44218995);
    lemma_not_printed("NWT"@);
    reveal_strlit("QUE");
    assert(signature("QUE"@) == 36350603);
    lemma_not_printed("QUE"@);
    reveal_strlit("PQ");
    assert(signature("PQ"@) == 166530);
    lemma_not_printed("PQ"@);
    reveal_strlit("PEI");
    assert(signature("PEI"@) == 38414979);
    lemma_not_printed("PEI"@);
    reveal_strlit("YUK");
    assert(signature("YUK"@) == 39496395);
    lemma_not_printed("YUK"@);
    reveal_strlit("MEX");
    assert(signature("MEX"@) == 46279275);
    lemma_not_printed("MEX"@);
    reveal_strlit("MEXICO");
    assert(signature("MEXICO"@) == 9844173422);
    lemma_not_printed("MEXICO"@);
    reveal_strlit("4U1UN");
    assert(signature("4U1UN"@) == 11434371493);
    lemma_not_printed("4U1UN"@);
    reveal_strlit("4U1/U");
    assert(signature("4U1/U"@) == 6334097829);
    lemma_not_printed("4U1/U"@);
}

proof fn lemma_row_signature(i: int)
    requires
        0 <= i < catalog().len(),
    ensures
        row_of(signature(catalog()[i].id@)) == i,
        i != 10 && i != 78 ==> catalog()[i].code == catalog()[i].id && plain(catalog()[i].id@),
{
    reveal(catalog);
    lemma_parts();
    if i < 51 {
        lemma_us_rows(i);
    } else if i < 64 {
        lemma_canadian_rows(i - 51);
    } else {
        lemma_other_rows(i - 64);
    }
}

/// The codes that other spellings stand for are printed.
pub proof fn lemma_spelled_codes_are_printed()
    ensures
        printed("NL"@),
        printed("NT"@),
        printed("QC"@),
        printed("PE"@),
        printed("YT"@),
        printed("XE"@),
        printed("4U1U"@),
{
    reveal(catalog);
    lemma_parts();
    reveal(canadian_rows);
    reveal(other_rows);
    assert(catalog()[55].code@ == "NL"@);
    assert(catalog()[57].code@ == "NT"@);
    assert(catalog()[60].code@ == "PE"@);
    assert(catalog()[61].code@ == "QC"@);
    assert(catalog()[63].code@ == "YT"@);
    assert(catalog()[105].code@ == "XE"@);
    assert(catalog()[64].code@ == "4U1U"@);
}

/// The checklist has 51 rows of the United States, then 13 of Canada, then 47 of other countries of
/// North America; every row but the two of the shared code is identified by its code.
pub proof fn law_groups_of_rows(i: int)
    requires
        0 <= i < catalog().len(),
    ensures
        catalog().len() == 51 + 13 + 47,
        catalog()[i].group == MultiplierGroup::UsDc <==> i < 51,
        catalog()[i].group == MultiplierGroup::Canada <==> 51 <= i < 64,
        catalog()[i].group == MultiplierGroup::OtherNorthAmerica <==> 64 <= i,
        i != 10 && i != 78 ==> catalog()[i].id@ == catalog()[i].code@,
{
    lemma_catalog_len();
    lemma_row_signature(i);
    reveal(catalog);
    lemma_parts();
    reveal(us_rows);
    reveal(canadian_rows);
    reveal(other_rows);
}

/// A code other than the shared one means the one row that has it, whoever sends it.
pub proof fn law_other_codes_need_no_context(
    code: Seq<char>,
    call: Seq<char>,
    country: Option<Seq<char>>,
    i: int,
)
    requires
        0 <= i < catalog().len(),
        catalog()[i].code@ == code,
        code != "HI"@,
    ensures
        resolved(code, call, country) == Some(catalog()[i]),
{
    lemma_position_of(code, 0);
    let k = position_of(code, 0);
    assert(!(i < k));
    if k < i {
        law_one_code_is_shared(k, i);
        law_shared_code_is_two_rows(Seq::empty(), None);
    }
}

/// A callsign that begins with HI is Dominican, and so is a country that has the word for it,
/// whatever the case of letters.
pub proof fn law_dominican(call: Seq<char>, behind: Seq<char>, country: Option<Seq<char>>)
    ensures
        text::upper(text::trimmed(call)) == seq!['H', 'I'] + behind ==> dominican(call, country),
        dominican(call, None) ==> text::trimmed(call).len() >= 2 && (text::trimmed(call)[0] == 'H'
            || text::trimmed(call)[0] == 'h') && (text::trimmed(call)[1] == 'I' || text::trimmed(
            call,
        )[1] == 'i'),
        country matches Some(c) && text::has_part(text::upper(text::trimmed(c)), "DOMINICAN"@)
            ==> dominican(call, country),
{
    reveal_strlit("HI");
    let u = text::upper(text::trimmed(call));
    assert("HI"@ =~= seq!['H', 'I']);
    if u == seq!['H', 'I'] + behind {
        text::law_parts(u, "HI"@, behind);
    }
    if dominican(call, None) {
        assert(u.take(2) == "HI"@);
        assert(u.take(2)[0] == 'H' && u.take(2)[1] == 'I');
        assert(u[0] == text::upper_char(text::trimmed(call)[0]));
        assert(u[1] == text::upper_char(text::trimmed(call)[1]));
    }
}

/// A callsign with a prefix of Hawaii, which is one of the letters A, K, N and W, then H and 6 or 7,
/// at its beginning or behind a stroke is Hawaiian, and so is a country that is Hawaii or the United
/// States.
pub proof fn law_hawaiian(
    call: Seq<char>,
    before: Seq<char>,
    letter: char,
    digit: char,
    behind: Seq<char>,
    country: Option<Seq<char>>,
)
    requires
        letter == 'A' || letter == 'K' || letter == 'N' || letter == 'W',
        digit == '6' || digit == '7',
    ensures
        model::normalized(call) == seq![letter, 'H', digit] + behind ==> hawaiian(call, country),
        model::normalized(call) == before.push('/') + (seq![letter, 'H', digit] + behind)
            ==> hawaiian(call, country),
        country matches Some(c) && text::has_part(text::upper(text::trimmed(c)), "HAWAII"@)
            ==> hawaiian(call, country),
        country matches Some(c) && text::same_letters(text::trimmed(c), "UNITED STATES"@)
            ==> hawaiian(call, country),
        country matches Some(c) && text::same_letters(text::trimmed(c), "USA"@) ==> hawaiian(
            call,
            country,
        ),
        hawaiian(call, None) ==> exists|i: int|
            0 <= i < model::normalized(call).len() - 2 && (i == 0 || model::normalized(call)[i - 1]
                == '/') && (#[trigger] model::normalized(call)[i] == 'A' || model::normalized(
                call,
            )[i] == 'K' || model::normalized(call)[i] == 'N' || model::normalized(call)[i] == 'W')
                && model::normalized(call)[i + 1] == 'H' && (model::normalized(call)[i + 2] == '6'
                || model::normalized(call)[i + 2] == '7'),
{
    reveal_strlit("KH6");
    reveal_strlit("KH7");
    reveal_strlit("AH6");
    reveal_strlit("AH7");
    reveal_strlit("NH6");
    reveal_strlit("NH7");
    reveal_strlit("WH6");
    reveal_strlit("WH7");
    reveal_strlit("UNITED STATES");
    reveal_strlit("USA");
    let u = model::normalized(call);
    let p = seq![letter, 'H', digit];
    let rest = p + behind;
    assert(rest.take(3) =~= p);
    assert("KH6"@ =~= seq!['K', 'H', '6'] && "KH7"@ =~= seq!['K', 'H', '7']);
    assert("AH6"@ =~= seq!['A', 'H', '6'] && "AH7"@ =~= seq!['A', 'H', '7']);
    assert("NH6"@ =~= seq!['N', 'H', '6'] && "NH7"@ =~= seq!['N', 'H', '7']);
    assert("WH6"@ =~= seq!['W', 'H', '6'] && "WH7"@ =~= seq!['W', 'H', '7']);
    assert(hawaiian_prefix(rest));
    if u == rest {
        assert(u.skip(0) =~= rest);
        assert(hawaiian_call(u));
    }
    if u == before.push('/') + rest {
        let i = before.len() + 1;
        assert(u.skip(i as int) =~= rest);
        assert(u[i - 1] == '/');
        assert(hawaiian_call(u));
    }
    if let Some(c) = country {
        text::law_same_letters(text::trimmed(c), "UNITED STATES"@);
        text::law_same_letters(text::trimmed(c), "USA"@);
        assert(text::upper("UNITED STATES"@) =~= "UNITED STATES"@);
        assert(text::upper("USA"@) =~= "USA"@);
    }
    if hawaiian(call, None) {
        let i = choose|i: int|
            0 <= i < u.len() && (i == 0 || u[i - 1] == '/') && hawaiian_prefix(#[trigger] u.skip(i));
        let t = u.skip(i).take(3);
        assert(t[0] == u[i] && t[1] == u[i + 1] && t[2] == u[i + 2]);
    }
}

} // verus!
