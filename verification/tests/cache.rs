use chrono::{Datelike, NaiveDate};
use tageswort::cache_file_name;

#[test]
fn cache_file_name_is_iso_date_with_txt() {
    assert_eq!(cache_file_name(2026, 4, 28), "2026-04-28.txt");
    assert_eq!(cache_file_name(2026, 4, 27), "2026-04-27.txt");
    assert_eq!(cache_file_name(1999, 12, 31), "1999-12-31.txt");
}

#[test]
fn cache_file_name_pads_and_signs_years_as_chrono_does() {
    assert_eq!(cache_file_name(5, 1, 2), "0005-01-02.txt");
    assert_eq!(cache_file_name(0, 1, 1), "0000-01-01.txt");
    assert_eq!(cache_file_name(-5, 3, 4), "-0005-03-04.txt");
    assert_eq!(cache_file_name(10000, 1, 1), "+10000-01-01.txt");
    assert_eq!(cache_file_name(-123456, 7, 9), "-123456-07-09.txt");
}

#[test]
fn cache_file_name_agrees_with_chrono_format() {
    let years = [-262143, -10000, -9999, -1000, -1, 0, 1, 9, 99, 999, 1000, 2024, 9999, 10000, 262142];
    for &year in years.iter() {
        for month in 1..=12u32 {
            for day in [1u32, 9, 10, 28] {
                let date = NaiveDate::from_ymd_opt(year, month, day).unwrap();
                assert_eq!(
                    cache_file_name(date.year(), date.month(), date.day()),
                    format!("{}.txt", date.format("%Y-%m-%d"))
                );
            }
        }
    }
}
