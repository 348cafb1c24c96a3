use rustuna::float::Float;
use rustuna::sobol::{
    decode, gray_code_xor, initialize_direction_numbers, m_width, nth_point, scale, ByteReader, Entry, BITS, CAPACITY, MAX_DEGREE,
    MAX_DIM,
};

fn number(value: Float) -> f64 {
    f64::from_bits(value.to_bits())
}

/// Appends one dimension in the packed layout.
fn pack(table: &mut Vec<u8>, poly: u32, m: &[u32]) {
    table.push(m.len() as u8);
    table.extend_from_slice(&poly.to_le_bytes());
    for (i, value) in m.iter().enumerate() {
        for k in 0..(i + 8) / 8 {
            table.push((value >> (8 * k)) as u8);
        }
    }
}

/// The first dimensions of the Joe-Kuo table: the degree, the inner polynomial terms and the
/// initial values of each dimension from the second on.
fn joe_kuo() -> Vec<u8> {
    let entries: [(u32, u32, &[u32]); 11] = [
        (1, 0, &[1]),
        (2, 1, &[1, 3]),
        (3, 1, &[1, 3, 1]),
        (3, 2, &[1, 1, 1]),
        (4, 1, &[1, 1, 3, 3]),
        (4, 4, &[1, 3, 5, 13]),
        (5, 2, &[1, 1, 5, 5, 17]),
        (5, 4, &[1, 1, 5, 5, 5]),
        (5, 7, &[1, 1, 7, 11, 19]),
        (5, 11, &[1, 1, 5, 1, 1]),
        (5, 13, &[1, 1, 1, 3, 11]),
    ];
    let mut table: Vec<u8> = Vec::new();
    for (degree, terms, m) in entries {
        pack(&mut table, (1 << degree) | (terms << 1) | 1, m);
    }
    table
}

/// A table of every supported dimension, with degrees that do not decrease.
fn full_table() -> Vec<u8> {
    let mut table: Vec<u8> = Vec::new();
    for d in 0..MAX_DIM - 1 {
        let degree = 1 + d * MAX_DEGREE / (MAX_DIM - 1);
        let m: Vec<u32> = (1..=degree as u32).map(|i| (d as u32 * 2 + 1) % (1 << i)).collect();
        pack(&mut table, (1 << degree) | 1, &m);
    }
    table
}

fn directions(table: &[u8], dim: usize) -> Vec<Vec<u32>> {
    initialize_direction_numbers(&decode(table, dim).unwrap())
}

#[test]
fn decodes_known_entries() {
    let entries = decode(&joe_kuo(), 12).unwrap();
    assert_eq!(entries.len(), 11);

    // Dimension index 1: x + 1, m = [1].
    assert_eq!(entries[0].poly, 0b11);
    assert_eq!(entries[0].degree, 1);
    assert_eq!(&entries[0].m[..1], &[1]);

    // Dimension index 3: x^3 + x + 1, m = [1, 3, 1].
    assert_eq!(entries[2].poly, 0b1011);
    assert_eq!(entries[2].degree, 3);
    assert_eq!(&entries[2].m[..3], &[1, 3, 1]);

    // Dimension index 9: x^5 + x^3 + x^2 + x + 1, m = [1, 1, 7, 11, 19].
    assert_eq!(entries[8].poly, 0b101111);
    assert_eq!(entries[8].degree, 5);
    assert_eq!(&entries[8].m[..5], &[1, 1, 7, 11, 19]);
}

#[test]
fn decodes_every_dimension_within_the_packed_table() {
    let mut count = 0;
    let mut previous_degree = 0;
    for entry in decode(&full_table(), MAX_DIM).unwrap() {
        assert!(entry.degree >= 1 && entry.degree <= MAX_DEGREE);
        assert!(entry.degree >= previous_degree, "degrees must not decrease");
        previous_degree = entry.degree;

        for (i, &value) in entry.m[..entry.degree].iter().enumerate() {
            let i = i + 1;
            assert_eq!(value % 2, 1, "m_{i} must be odd");
            assert!(value < (1 << i), "m_{i} must be below 2^{i}");
        }
        count += 1;
    }
    assert_eq!(count, MAX_DIM - 1);
    assert_eq!(previous_degree, MAX_DEGREE);
}

#[test]
fn a_table_that_is_too_short_is_refused() {
    let mut table = joe_kuo();
    assert!(decode(&table, 13).is_err());
    table.pop();
    assert!(decode(&table, 12).is_err());
    assert_eq!(decode(&table, 11).unwrap().len(), 10);
    assert_eq!(decode(&table, 1).unwrap().len(), 0);
    assert_eq!(decode(&table, 0).unwrap().len(), 0);

    let many = decode(&full_table(), MAX_DIM).unwrap();
    assert_eq!(many.len(), 1023);
    for dim in [0, 1, 2, 7, 12, 500] {
        let few = decode(&full_table(), dim).unwrap();
        assert_eq!(few.len(), dim.saturating_sub(1));
        assert!(few.iter().zip(&many).all(|(a, b)| a.poly == b.poly && a.degree == b.degree && a.m == b.m));
    }
}

#[test]
fn fields_are_little_endian() {
    let bytes: [u8; 4] = [0x34, 0x12, 0xff, 0x01];
    let mut reader = ByteReader { pos: 0 };
    assert_eq!(reader.read(&bytes, 2), 0x1234);
    assert_eq!(reader.read(&bytes, 1), 0xff);
    assert_eq!(reader.pos, 3);
    assert_eq!((m_width(1), m_width(8), m_width(9), m_width(13)), (1, 1, 2, 2));
}

#[test]
fn matches_scipy_in_two_dimensions() {
    // scipy.stats.qmc.Sobol(d=2, scramble=False).random(16)
    let expected = [
        [0.0, 0.0],
        [0.5, 0.5],
        [0.75, 0.25],
        [0.25, 0.75],
        [0.375, 0.375],
        [0.875, 0.875],
        [0.625, 0.125],
        [0.125, 0.625],
        [0.1875, 0.3125],
        [0.6875, 0.8125],
        [0.9375, 0.0625],
        [0.4375, 0.5625],
        [0.3125, 0.1875],
        [0.8125, 0.6875],
        [0.5625, 0.4375],
        [0.0625, 0.9375],
    ];
    let directions = directions(&full_table_with_joe_kuo(), MAX_DIM);
    for (index, point) in expected.iter().enumerate() {
        let got: Vec<f64> = nth_point(&directions, 2, index as u64).unwrap().into_iter().map(number).collect();
        assert_eq!(got, point.to_vec());
    }
}

/// A table of every supported dimension that begins with the Joe-Kuo entries.
fn full_table_with_joe_kuo() -> Vec<u8> {
    let mut table = joe_kuo();
    for d in 11..MAX_DIM - 1 {
        let degree = 5 + (d - 11) * (MAX_DEGREE - 4) / (MAX_DIM - 12);
        let m: Vec<u32> = (1..=degree as u32).map(|i| (d as u32 * 2 + 1) % (1 << i)).collect();
        pack(&mut table, (1 << degree) | 1, &m);
    }
    table
}

#[test]
fn rejects_unsupported_dimensions() {
    let directions = directions(&full_table_with_joe_kuo(), MAX_DIM);
    assert!(nth_point(&directions, 0, 0).is_err());
    let reason = nth_point(&directions, 0, 0).err().map(|e| e.reason);
    assert_eq!(reason.as_deref(), Some("Sobol' dimension must be in 1..=1024, got 0"));
    assert!(nth_point(&directions, MAX_DIM + 1, 0).is_err());
    assert!(nth_point(&directions, MAX_DIM, 0).is_ok());
}

#[test]
fn refuses_indices_past_the_end_of_the_sequence() {
    let directions = directions(&full_table_with_joe_kuo(), MAX_DIM);
    assert_eq!(nth_point(&directions, 2, CAPACITY - 1).unwrap().len(), 2);
    assert!(nth_point(&directions, 2, CAPACITY).is_err());
    let reason = nth_point(&directions, 2, CAPACITY).err().map(|e| e.reason);
    assert_eq!(reason.as_deref(), Some("Sobol' point index must be below 2**30=1073741824, got 1073741824"));
}

#[test]
fn the_sequence_starts_at_the_origin() {
    let directions = directions(&full_table(), MAX_DIM);
    for value in nth_point(&directions, 16, 0).unwrap() {
        assert_eq!(number(value), 0.0);
    }
}

#[test]
fn the_first_points_fill_every_stratum() {
    let directions = directions(&joe_kuo(), 12);
    for row in directions.iter() {
        let mut cells: Vec<usize> = (0..64u64).map(|n| (number(scale(gray_code_xor(row, n))) * 64.0) as usize).collect();
        cells.sort();
        assert_eq!(cells, (0..64).collect::<Vec<usize>>());
    }
}

#[test]
fn numbers_are_scaled_exactly() {
    assert_eq!(number(scale(0)), 0.0);
    assert_eq!(number(scale(1)), 1.0 / CAPACITY as f64);
    assert_eq!(number(scale((CAPACITY - 1) as u32)), (CAPACITY - 1) as f64 / CAPACITY as f64);
}

#[test]
fn the_first_dimension_halves_the_unit_again_and_again() {
    let none: Vec<Entry> = Vec::new();
    let directions = initialize_direction_numbers(&none);
    assert_eq!(directions.len(), 1);
    for j in 0..BITS {
        assert_eq!(directions[0][j], 1 << (BITS - 1 - j));
    }
}

#[test]
fn the_first_values_are_the_multiples_of_a_power_of_two() {
    let directions = directions(&full_table_with_joe_kuo(), MAX_DIM);
    for c in [0, 1, 5, 11] {
        for m in [0u32, 3, 6] {
            let count = 1u64 << m;
            let mut values: Vec<f64> = (0..count).map(|n| number(nth_point(&directions, 12, n).unwrap()[c])).collect();
            let fewer: Vec<f64> = (0..count).map(|n| number(nth_point(&directions, c + 1, n).unwrap()[c])).collect();
            assert_eq!(values, fewer);
            values.sort_by(f64::total_cmp);
            let expected: Vec<f64> = (0..count).map(|i| i as f64 / count as f64).collect();
            assert_eq!(values, expected);
        }
    }
}

#[test]
fn the_next_point_changes_one_direction() {
    let directions = directions(&joe_kuo(), 12);
    for row in directions.iter() {
        for n in 0..200u64 {
            let lowest_zero = n.trailing_ones() as usize;
            assert_eq!(gray_code_xor(row, n + 1), gray_code_xor(row, n) ^ row[lowest_zero]);
        }
    }
}
