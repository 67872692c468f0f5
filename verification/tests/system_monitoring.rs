use botbot::system::{disk_status_fields, disk_usage, disk_usage_from_fields, parse_i32, split_at_byte};

const DF: &str = "Filesystem 1K-blocks Used Available Use% Mounted on\n/dev/sda1   1000000 420000 580000 42% /\n/dev/sdb1 2000 1000 1000 50% /var\n";

#[test]
fn usage_of_a_disk() {
    assert_eq!(disk_usage(&DF.to_string(), &"/var".to_string()), Some(Ok(50)));
    assert_eq!(disk_usage(&DF.to_string(), &"sda1".to_string()), Some(Ok(42)));
}

#[test]
fn usage_errors() {
    assert_eq!(
        disk_usage(&DF.to_string(), &"/".to_string()),
        Some(Err("ERROR: fail to read disk usage".to_string()))
    );
    assert_eq!(
        disk_usage(&DF.to_string(), &"(".to_string()),
        Some(Err("ERROR: fail to build system regex".to_string()))
    );
    let odd = "a b c d xx% f\n".to_string();
    assert_eq!(
        disk_usage(&odd, &"a".to_string()),
        Some(Err("ERROR: convert disk usage in Integer".to_string()))
    );
    let multibyte = "a b c d 5é f\n".to_string();
    assert_eq!(disk_usage(&multibyte, &"a".to_string()), None);
}

#[test]
fn fields_of_matching_lines() {
    let f = disk_status_fields(&DF.to_string(), &"/var".to_string()).unwrap();
    assert_eq!(f, vec!["/dev/sdb1", "2000", "1000", "1000", "50%", "/var"]);
    assert_eq!(disk_usage_from_fields(&f), Ok(50));
    assert_eq!(
        disk_usage_from_fields(&vec!["x".to_string()]),
        Err("ERROR: fail to read disk usage".to_string())
    );
}

#[test]
fn splitting() {
    assert_eq!(split_at_byte("a b", b' '), vec!["a", "b"]);
    assert_eq!(split_at_byte("a  b", b' '), vec!["a", "", "b"]);
    assert_eq!(split_at_byte("", b' '), vec![""]);
    assert_eq!(split_at_byte("é\nü\n", b'\n'), vec!["é", "ü", ""]);
}

#[test]
fn integer_parsing() {
    assert_eq!(parse_i32("42"), Some(42));
    assert_eq!(parse_i32("-7"), Some(-7));
    assert_eq!(parse_i32("+5"), Some(5));
    assert_eq!(parse_i32(""), None);
    assert_eq!(parse_i32("-"), None);
    assert_eq!(parse_i32("12a"), None);
    assert_eq!(parse_i32("2147483647"), Some(i32::MAX));
    assert_eq!(parse_i32("2147483648"), None);
    assert_eq!(parse_i32("-2147483648"), Some(i32::MIN));
    assert_eq!(parse_i32("-2147483649"), None);
    assert_eq!(parse_i32("99999999999999999999"), None);
    for s in ["0", "007", "-0", "123456", "+2147483647"] {
        assert_eq!(parse_i32(s), s.parse::<i32>().ok());
    }
}
