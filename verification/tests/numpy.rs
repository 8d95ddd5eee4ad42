use cabarrus::errors::Error;
use cabarrus::numpy::{
    create_empty_mmap, fits, header_bytes, header_text, open_matrix_mmap, read_header,
    read_matrix, read_matrix_mmap, write_matrix, Header, Matrix, HEAD_LIMIT,
};

fn cells(values: &[f64]) -> Vec<u8> {
    let mut bytes = Vec::new();
    for v in values {
        bytes.extend_from_slice(&v.to_ne_bytes());
    }
    bytes
}

fn floats(bytes: &[u8]) -> Vec<f64> {
    bytes
        .chunks(8)
        .map(|c| f64::from_ne_bytes([c[0], c[1], c[2], c[3], c[4], c[5], c[6], c[7]]))
        .collect()
}

fn file_with(dictionary: &str, payload: &[u8]) -> Vec<u8> {
    let mut file = b"\x93NUMPY\x01\x00".to_vec();
    file.extend_from_slice(&[(dictionary.len() + 1) as u8, 0]);
    file.extend_from_slice(dictionary.as_bytes());
    file.push(b'\n');
    file.extend_from_slice(payload);
    file
}

#[test]
fn header_text_is_the_dictionary() {
    assert_eq!(
        header_text(34, 27),
        b"{'descr': '<f8', 'fortran_order': False, 'shape': (34,27)}".to_vec()
    );
    assert_eq!(
        header_text(0, 0),
        b"{'descr': '<f8', 'fortran_order': False, 'shape': (0,0)}".to_vec()
    );
}

#[test]
fn header_bytes_are_exact_for_two_by_two() {
    let mut expected = b"\x93NUMPY\x01\x00".to_vec();
    expected.extend_from_slice(&[70, 0]);
    expected.extend_from_slice(b"{'descr': '<f8', 'fortran_order': False, 'shape': (2,2)}");
    expected.extend_from_slice(&[b' '; 13]);
    expected.push(b'\n');
    assert_eq!(expected.len(), 80);
    assert_eq!(header_bytes(2, 2), expected);
}

#[test]
fn header_ends_on_a_multiple_of_sixteen() {
    for rows in [0usize, 1, 9, 10, 99, 100, 12345, 1 << 20, usize::MAX] {
        for cols in [0usize, 1, 7, 10, 1024, 99999, usize::MAX] {
            let header = header_bytes(rows, cols);
            assert_eq!(header.len() % 16, 0);
            assert_eq!(*header.last().unwrap(), b'\n');
            let field = header[8] as usize + 256 * header[9] as usize;
            assert_eq!(field + 10, header.len());
            assert_eq!(
                read_header(&header),
                Some(Header { rows, cols, offset: header.len() })
            );
        }
    }
}

#[test]
fn length_field_is_little_endian() {
    let header = header_bytes(3, 4);
    assert_eq!(header[8], (header.len() - 10) as u8);
    assert_eq!(header[9], 0);
}

#[test]
fn round_trip_keeps_every_bit() {
    let values = [1.0, -2.5, f64::MAX, f64::MIN_POSITIVE, 0.0, -0.0];
    let data = cells(&values);
    let matrix = Matrix::new(2, 3, data.clone()).unwrap();
    let file = write_matrix(&matrix);
    let back = read_matrix(file).unwrap();
    assert_eq!(back.rows(), 2);
    assert_eq!(back.cols(), 3);
    assert_eq!(back.data(), &data);
    assert_eq!(back, matrix);
}

#[test]
fn round_trip_keeps_nan_payloads() {
    let odd = f64::from_bits(0x7ff8_0000_dead_beef);
    let data = cells(&[odd, f64::INFINITY]);
    let matrix = Matrix::new(1, 2, data.clone()).unwrap();
    let back = read_matrix(write_matrix(&matrix)).unwrap();
    assert_eq!(back.into_data(), data);
}

#[test]
fn round_trip_of_empty_shapes() {
    for (rows, cols) in [(0usize, 0usize), (0, 5), (7, 0)] {
        let matrix = Matrix::new(rows, cols, Vec::new()).unwrap();
        let back = read_matrix(write_matrix(&matrix)).unwrap();
        assert_eq!(back.rows(), rows);
        assert_eq!(back.cols(), cols);
        assert!(back.data().is_empty());
    }
}

#[test]
fn matrix_needs_the_bytes_of_its_shape() {
    assert!(Matrix::new(2, 2, vec![0; 32]).is_some());
    assert!(Matrix::new(2, 2, vec![0; 31]).is_none());
    assert!(Matrix::new(2, 2, vec![0; 40]).is_none());
    assert!(Matrix::new(usize::MAX, 2, vec![0; 16]).is_none());
    assert!(fits(3, 5, 120));
    assert!(!fits(3, 5, 119));
    assert!(!fits(usize::MAX, usize::MAX, 8));
}

#[test]
fn reads_the_spacing_that_other_writers_use() {
    let file = file_with(
        "{'descr':'<f8','fortran_order':False,'shape':(1, 2)}   ",
        &cells(&[3.0, 4.0]),
    );
    let matrix = read_matrix(file).unwrap();
    assert_eq!((matrix.rows(), matrix.cols()), (1, 2));
    assert_eq!(floats(matrix.data()), vec![3.0, 4.0]);
}

#[test]
fn reads_leading_zeros() {
    let file = file_with(
        "{'descr': '<f8', 'fortran_order': False, 'shape': (001,02)}",
        &cells(&[3.0, 4.0]),
    );
    let matrix = read_matrix(file).unwrap();
    assert_eq!((matrix.rows(), matrix.cols()), (1, 2));
}

#[test]
fn rejects_fortran_order() {
    let file = file_with(
        "{'descr': '<f8', 'fortran_order': True, 'shape': (1,1)}",
        &cells(&[1.0]),
    );
    let head = file[..file.len().min(HEAD_LIMIT)].to_vec();
    assert_eq!(read_matrix(file.clone()), Err(Error::Format(file.clone())));
    assert_eq!(open_matrix_mmap(&head, file.len()), Err(Error::Format(head.clone())));
}

#[test]
fn rejects_other_element_types() {
    for descr in ["<f4", ">f8", "<i8", "|u1", "<c16"] {
        let dictionary =
            format!("{{'descr': '{}', 'fortran_order': False, 'shape': (1,1)}}", descr);
        let file = file_with(&dictionary, &cells(&[1.0]));
        assert!(read_matrix(file.clone()).unwrap_err().is_format());
        assert!(open_matrix_mmap(&file, file.len()).unwrap_err().is_format());
    }
}

#[test]
fn rejects_shapes_that_are_not_two_dimensional() {
    for shape in ["(4,)", "(4)", "()", "(1,2,3)", "(1, 2, 3)", "(,2)", "(1,)"] {
        let dictionary =
            format!("{{'descr': '<f8', 'fortran_order': False, 'shape': {}}}", shape);
        let file = file_with(&dictionary, &cells(&[1.0, 2.0, 3.0, 4.0, 5.0, 6.0]));
        assert!(read_matrix(file.clone()).unwrap_err().is_format());
        assert!(open_matrix_mmap(&file, file.len()).unwrap_err().is_format());
    }
}

#[test]
fn rejects_what_is_no_header() {
    assert_eq!(read_matrix(Vec::new()), Err(Error::Format(Vec::new())));
    assert_eq!(open_matrix_mmap(&[], 0), Err(Error::Format(Vec::new())));
    assert!(read_matrix(b"\x93NUMPY\x01\x00".to_vec()).unwrap_err().is_format());
    let mut other_version = header_bytes(1, 1);
    other_version[6] = 2;
    assert!(read_matrix(other_version).unwrap_err().is_format());
    let mut no_magic = header_bytes(1, 1);
    no_magic[0] = b' ';
    assert!(read_matrix(no_magic).unwrap_err().is_format());
    let mut cut = header_bytes(1, 1);
    cut.pop();
    assert!(read_matrix(cut).unwrap_err().is_format());
}

#[test]
fn rejects_numbers_beyond_the_machine_word() {
    let file = file_with(
        "{'descr': '<f8', 'fortran_order': False, 'shape': (99999999999999999999999,1)}",
        &[],
    );
    assert!(read_matrix(file).unwrap_err().is_format());
}

#[test]
fn complaint_keeps_the_first_hundred_bytes() {
    let junk: Vec<u8> = (0..250u32).map(|i| (i % 251) as u8).collect();
    assert_eq!(read_matrix(junk.clone()), Err(Error::Format(junk[..100].to_vec())));
    let short = b"not a matrix".to_vec();
    assert_eq!(read_matrix(short.clone()), Err(Error::Format(short)));
}

#[test]
fn size_mismatch_names_shape_and_bytes() {
    let mut file = header_bytes(2, 2);
    file.extend_from_slice(&[0; 31]);
    assert_eq!(
        read_matrix(file.clone()),
        Err(Error::SizeMismatch { rows: 2, cols: 2, actual: 31 })
    );
    file.extend_from_slice(&[0; 2]);
    assert_eq!(
        read_matrix(file.clone()),
        Err(Error::SizeMismatch { rows: 2, cols: 2, actual: 33 })
    );
    assert_eq!(
        open_matrix_mmap(&file[..80], file.len()),
        Err(Error::SizeMismatch { rows: 2, cols: 2, actual: 33 })
    );
    assert_eq!(
        open_matrix_mmap(&file[..80], 40),
        Err(Error::SizeMismatch { rows: 2, cols: 2, actual: 0 })
    );
    let huge = header_bytes(usize::MAX, usize::MAX);
    assert_eq!(
        read_matrix(huge),
        Err(Error::SizeMismatch { rows: usize::MAX, cols: usize::MAX, actual: 0 })
    );
}

#[test]
fn mapping_agrees_with_reading() {
    let values: Vec<f64> = (0..12).map(|i| i as f64 * 1.5).collect();
    let matrix = Matrix::new(3, 4, cells(&values)).unwrap();
    let file = write_matrix(&matrix);
    let head = &file[..file.len().min(HEAD_LIMIT)];
    let mapped = open_matrix_mmap(head, file.len()).unwrap();
    assert_eq!((mapped.rows(), mapped.cols()), (3, 4));
    assert_eq!(mapped.offset(), 80);
    assert_eq!(mapped.len(), 96);
    let region = &file[mapped.offset()..mapped.offset() + mapped.len()];
    let view = read_matrix_mmap(&mapped, region.len()).unwrap();
    let read = read_matrix(file.clone()).unwrap();
    assert_eq!(region, read.data().as_slice());
    for row in 0..3 {
        for col in 0..4 {
            let at = view.cell(row, col).unwrap();
            assert_eq!(floats(&region[at..at + 8]), vec![values[row * 4 + col]]);
        }
    }
}

#[test]
fn view_stays_within_the_region() {
    let file = write_matrix(&Matrix::new(3, 4, vec![0; 96]).unwrap());
    let mapped = open_matrix_mmap(&file[..80], file.len()).unwrap();
    let view = read_matrix_mmap(&mapped, 96).unwrap();
    assert_eq!((view.rows(), view.cols(), view.len()), (3, 4, 96));
    assert_eq!(view.cell(0, 0), Some(0));
    assert_eq!(view.cell(2, 3), Some(88));
    assert_eq!(view.cell(1, 2), Some(48));
    assert_eq!(view.cell(3, 0), None);
    assert_eq!(view.cell(0, 4), None);
    assert_eq!(view.band(0, 3), Some((0, 96)));
    assert_eq!(view.band(1, 1), Some((32, 64)));
    assert_eq!(view.band(3, 0), Some((96, 96)));
    assert_eq!(view.band(2, 2), None);
    assert_eq!(view.band(4, 0), None);
    assert_eq!(view.band(1, usize::MAX), None);
    assert_eq!(
        read_matrix_mmap(&mapped, 95),
        Err(Error::SizeMismatch { rows: 3, cols: 4, actual: 95 })
    );
}

#[test]
fn empty_file_is_laid_out_for_its_shape() {
    let (header, region) = create_empty_mmap(5, 7).unwrap();
    assert_eq!(header, header_bytes(5, 7));
    assert_eq!((region.rows(), region.cols()), (5, 7));
    assert_eq!(region.offset(), header.len());
    assert_eq!(region.len(), 280);
    let mut file = header.clone();
    file.extend_from_slice(&vec![0u8; region.len()]);
    assert_eq!(open_matrix_mmap(&header, file.len()), Ok(region));
    let zeros = read_matrix(file).unwrap();
    assert_eq!(floats(zeros.data()), vec![0.0; 35]);
    assert!(create_empty_mmap(usize::MAX, 2).is_none());
    assert!(create_empty_mmap(usize::MAX / 8, 1).is_none());
}

#[test]
fn a_regular_expression_finds_the_same_header() {
    let pattern = regex::bytes::Regex::new(
        r"NUMPY\x01\x00(?s:..)\{'descr': ?'<f8', ?'fortran_order': ?False, ?'shape': ?\((\d+), ?(\d+)\)\} *\n",
    )
    .unwrap();
    for (rows, cols) in [(0usize, 0usize), (1, 1), (2, 2), (34, 27), (123456, 7), (1, 1 << 40)] {
        let header = header_bytes(rows, cols);
        let found = pattern.captures(&header).unwrap();
        assert_eq!(found.get(0).unwrap().start(), 1);
        assert_eq!(found.get(0).unwrap().end(), header.len());
        assert_eq!(&found[1], rows.to_string().as_bytes());
        assert_eq!(&found[2], cols.to_string().as_bytes());
    }
}
