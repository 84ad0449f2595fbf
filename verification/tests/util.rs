use cargo_sweep::util::{format_bytes, format_bytes_or_nothing};

/// The same in floating point.
fn in_floats(bytes: u64) -> String {
    let prefixes = ["B", "KiB", "MiB", "GiB", "TiB"];
    let mut bytes = bytes as f64;
    for prefix in prefixes.iter() {
        if bytes < 1024. {
            return format!("{bytes:.2} {prefix}");
        }
        bytes /= 1024.;
    }
    format!("{bytes} TiB")
}

#[test]
fn test_format_bytes() {
    assert_eq!(format_bytes(1024), "1.00 KiB");
    assert_eq!(format_bytes(1023), "1023.00 B");
    assert_eq!(format_bytes(500 * 1024 * 1024), "500.00 MiB");

    // Assert that the human-size crate can parse the output
    assert_eq!("1.00 B".parse::<human_size::Size>().unwrap().to_bytes(), 1);
    assert_eq!(
        "1.00 KiB".parse::<human_size::Size>().unwrap().to_bytes(),
        1024
    );
    assert_eq!(
        "1.00 MiB".parse::<human_size::Size>().unwrap().to_bytes(),
        1024 * 1024
    );
    assert_eq!(
        "1.00 GiB".parse::<human_size::Size>().unwrap().to_bytes(),
        1024 * 1024 * 1024
    );
    assert_eq!(
        "1.00 TiB".parse::<human_size::Size>().unwrap().to_bytes(),
        1024 * 1024 * 1024 * 1024
    );
}

#[test]
fn test_format_bytes_or_nothing() {
    assert_eq!(format_bytes_or_nothing(0), "nothing");

    assert_eq!(format_bytes(1024), format_bytes_or_nothing(1024));
    assert_eq!(format_bytes(1023), format_bytes_or_nothing(1023));
    assert_eq!(
        format_bytes(500 * 1024 * 1024),
        format_bytes_or_nothing(500 * 1024 * 1024)
    );
}

#[test]
fn output_parses_back() {
    assert_eq!(
        format_bytes(1).parse::<human_size::Size>().unwrap().to_bytes(),
        1
    );
    assert_eq!(
        format_bytes(1 << 30)
            .parse::<human_size::Size>()
            .unwrap()
            .to_bytes(),
        1 << 30
    );
}

#[test]
fn exact_values() {
    assert_eq!(format_bytes(0), "0.00 B");
    assert_eq!(format_bytes(1), "1.00 B");
    assert_eq!(format_bytes(1536), "1.50 KiB");
    assert_eq!(format_bytes(1024 * 1024), "1.00 MiB");
    assert_eq!(format_bytes(1024 * 1024 - 1), "1024.00 KiB");
    assert_eq!(format_bytes(1 << 30), "1.00 GiB");
    assert_eq!(format_bytes(1 << 40), "1.00 TiB");
    assert_eq!(format_bytes((1 << 50) - 1), "1024.00 TiB");
    assert_eq!(format_bytes(123_456_789), "117.74 MiB");
}

#[test]
fn halves_go_to_the_even_digit() {
    // 1.125 KiB and 1.375 KiB
    assert_eq!(format_bytes(1152), "1.12 KiB");
    assert_eq!(format_bytes(1408), "1.38 KiB");
    assert_eq!(format_bytes(1152), in_floats(1152));
    assert_eq!(format_bytes(1408), in_floats(1408));
}

#[test]
fn from_1024_tib_on_the_unit_stays() {
    assert_eq!(format_bytes(1 << 50), "1 TiB");
    assert_eq!(format_bytes(3 << 49), "1.5 TiB");
    assert_eq!(format_bytes((1 << 50) + 1), "1.0000000000000009 TiB");
    assert_eq!(format_bytes(1 << 63), "8192 TiB");
    assert_eq!(format_bytes(u64::MAX), "16384 TiB");
}

#[test]
fn agrees_with_floating_point_at_the_edges() {
    let mut values: Vec<u64> = vec![0, 1, 9, 10, 99, 100, 999, 1000, u64::MAX, u64::MAX - 1];
    for shift in 0..64 {
        let power = 1u64 << shift;
        for delta in 0..40u64 {
            values.push(power.wrapping_add(delta));
            values.push(power.wrapping_sub(delta));
            values.push(power.wrapping_add(power / 2).wrapping_add(delta));
            values.push(power.wrapping_add(power / 8).wrapping_sub(delta));
            values.push(power.wrapping_add(power / 1024).wrapping_add(delta));
        }
        if shift >= 53 {
            let unit = 1u64 << (shift - 52);
            for k in 0..9u64 {
                values.push(power.wrapping_add(k * unit / 2));
                values.push(power.wrapping_add(k * unit / 2 + 1));
                values.push(power.wrapping_add((k * unit / 2).wrapping_sub(1)));
                values.push(power.wrapping_sub(k * unit / 4));
                values.push(power.wrapping_sub(k * unit / 4 + 1));
            }
        }
    }
    for bytes in values {
        assert_eq!(format_bytes(bytes), in_floats(bytes), "{}", bytes);
    }
}

#[test]
fn agrees_with_floating_point_on_scattered_values() {
    let mut state: u64 = 0x9e37_79b9_7f4a_7c15;
    for round in 0..20000u32 {
        state ^= state << 13;
        state ^= state >> 7;
        state ^= state << 17;
        let bytes = state >> (round % 64);
        assert_eq!(format_bytes(bytes), in_floats(bytes), "{}", bytes);
    }
}

#[test]
fn agrees_with_floating_point_on_hundredths() {
    // multiples of 1/1024 of each unit, where halves of hundredths are met
    for unit in [1u64 << 10, 1 << 20, 1 << 30, 1 << 40] {
        for k in 1024..4096u64 {
            let bytes = unit / 1024 * k;
            assert_eq!(format_bytes(bytes), in_floats(bytes), "{}", bytes);
        }
    }
}
